//! The text records of a KF8 book: the flows (text, then CSS), their
//! division into 4096-byte records, the alignment padding after them, the
//! index records that follow, and the trailing byte sequences that tie text
//! records to NCX entries.

use vstd::prelude::*;
use crate::bytes::append_bytes;
use crate::strmap::StrMap;
use crate::kf8::{Kf8Builder, RECORD_SIZE};
use crate::toc::{NcxBuildEntry, TocEntry, toc_count, flat_toc_ok, flatten_toc};
use crate::guide::{GuideBuildEntry, Landmark, guide_entries_ok, collect_guide_entries};
use crate::strmap::PairMap;
use crate::resources::{Resource, views, strictly_lex_sorted, css_key, utf8_lossy, rec_bytes};

verus! {

/// The flows laid end to end: the text, then each CSS flow.
pub open spec fn joined_flows(text: Seq<u8>, css: Seq<Vec<u8>>) -> Seq<u8>
    decreases css.len(),
{
    if css.len() == 0 {
        text
    } else {
        joined_flows(text, css.drop_last()) + css.last()@
    }
}

/// The consecutive pieces of `RECORD_SIZE` bytes of `b` (the last one
/// shorter).
pub open spec fn chunks_of(b: Seq<u8>) -> Seq<Seq<u8>>
    decreases b.len(),
{
    if b.len() == 0 {
        Seq::empty()
    } else if b.len() <= RECORD_SIZE {
        seq![b]
    } else {
        seq![b.take(RECORD_SIZE as int)] + chunks_of(b.skip(RECORD_SIZE as int))
    }
}

/// The sum of the lengths of byte strings.
pub open spec fn total_len(rs: Seq<Seq<u8>>) -> nat
    decreases rs.len(),
{
    if rs.len() == 0 {
        0
    } else {
        total_len(rs.drop_last()) + rs.last().len()
    }
}

/// A trailing-byte-sequence entry: an NCX entry's index, start, length,
/// depth and parent.
pub struct TbsEntry {
    pub index: u32,
    pub start: u64,
    pub length: u64,
    pub depth: u32,
    pub parent: i32,
}

/// The CSS flow number of each style sheet: flow 0 is the text, so the
/// style sheets, in increasing order of href, are flows 1, 2, ...
pub fn css_flow_map(resources: &StrMap<Resource>) -> (r: StrMap<usize>)
    requires
        resources.keys_distinct(),
        resources.entries@.len() < usize::MAX,
    ensures
        exists|h: Seq<Seq<char>>|
            strictly_lex_sorted(h) && (forall|k: Seq<char>| h.contains(k) <==> css_key(*resources, k)) && (forall|
                k: Seq<char>,
            |
                #[trigger] r.lookup(k) == if h.contains(k) {
                    Some((crate::resources::index_in(h, k) + 1) as usize)
                } else {
                    None::<usize>
                }),
{
    let css_hrefs = crate::resources::sorted_css_hrefs(resources);
    let m = flow_numbers(&css_hrefs);
    proof {
        let h = views(css_hrefs@);
        assert(strictly_lex_sorted(h) && (forall|k: Seq<char>| h.contains(k) <==> css_key(*resources, k)));
    }
    m
}

/// Number the sorted style sheets from 1.
fn flow_numbers(css_hrefs: &Vec<String>) -> (r: StrMap<usize>)
    requires
        strictly_lex_sorted(views(css_hrefs@)),
        css_hrefs@.len() < usize::MAX,
    ensures
        forall|k: Seq<char>|
            #[trigger] r.lookup(k) == if views(css_hrefs@).contains(k) {
                Some((crate::resources::index_in(views(css_hrefs@), k) + 1) as usize)
            } else {
                None::<usize>
            },
{
    let mut m: StrMap<usize> = StrMap::new();
    let ghost hv = views(css_hrefs@);
    let mut i: usize = 0;
    while i < css_hrefs.len()
        invariant
            0 <= i <= css_hrefs@.len(),
            hv == views(css_hrefs@),
            strictly_lex_sorted(hv),
            css_hrefs@.len() < usize::MAX,
            forall|k: Seq<char>|
                #[trigger] m.lookup(k) == if hv.take(i as int).contains(k) {
                    Some((crate::resources::index_in(hv, k) + 1) as usize)
                } else {
                    None::<usize>
                },
        decreases css_hrefs@.len() - i,
    {
        proof {
            crate::resources::lemma_sorted_index(hv, i as int);
        }
        m.insert(css_hrefs[i].clone(), i + 1);
        proof {
            assert forall|k: Seq<char>|
                #[trigger] m.lookup(k) == if hv.take(i + 1).contains(k) {
                    Some((crate::resources::index_in(hv, k) + 1) as usize)
                } else {
                    None::<usize>
                } by {
                let s1 = hv.take(i + 1);
                let s0 = hv.take(i as int);
                if s1.contains(k) && k != hv[i as int] {
                    let t = choose|t: int| 0 <= t < i + 1 && s1[t] == k;
                    assert(s0[t] == k);
                }
                if s0.contains(k) {
                    let t = choose|t: int| 0 <= t < i && s0[t] == k;
                    assert(s1[t] == k);
                }
                if k == hv[i as int] {
                    assert(s1[i as int] == k);
                }
            }
        }
        i = i + 1;
    }
    proof {
        assert(hv.take(hv.len() as int) == hv);
    }
    m
}

/// The pieces of `RECORD_SIZE` bytes of the joined flows, each of which
/// becomes one (compressed) text record.
pub fn flow_chunks(all_flows: &[u8]) -> (r: Vec<Vec<u8>>)
    ensures
        rec_bytes(r@) == chunks_of(all_flows@),
{
    let mut out: Vec<Vec<u8>> = Vec::new();
    let mut pos: usize = 0;
    proof {
        assert(all_flows@.skip(0) == all_flows@);
        assert(rec_bytes(out@) =~= Seq::<Seq<u8>>::empty());
        assert(Seq::<Seq<u8>>::empty() + chunks_of(all_flows@) =~= chunks_of(all_flows@));
    }
    while pos < all_flows.len()
        invariant
            0 <= pos <= all_flows@.len(),
            rec_bytes(out@) + chunks_of(all_flows@.skip(pos as int)) == chunks_of(all_flows@),
        decreases all_flows@.len() - pos,
    {
        let end = if all_flows.len() - pos < RECORD_SIZE {
            all_flows.len()
        } else {
            pos + RECORD_SIZE
        };
        let piece = crate::kf8::bytes_to_vec(vstd::slice::slice_subrange(all_flows, pos, end));
        let ghost rest = all_flows@.skip(pos as int);
        let ghost before = rec_bytes(out@);
        out.push(piece);
        proof {
            assert(rec_bytes(out@) =~= before.push(piece@));
            if rest.len() <= RECORD_SIZE {
                assert(piece@ =~= rest);
                assert(all_flows@.skip(end as int) =~= Seq::<u8>::empty());
                assert(chunks_of(rest) == seq![rest]);
            } else {
                assert(piece@ =~= rest.take(RECORD_SIZE as int));
                assert(rest.skip(RECORD_SIZE as int) =~= all_flows@.skip(end as int));
            }
            assert(rec_bytes(out@) + chunks_of(all_flows@.skip(end as int)) =~= before + chunks_of(rest));
        }
        pos = end;
    }
    proof {
        assert(all_flows@.skip(pos as int) =~= Seq::<u8>::empty());
        assert(rec_bytes(out@) + Seq::<Seq<u8>>::empty() =~= rec_bytes(out@));
    }
    out
}

impl Kf8Builder {
    /// Record the flows: the resolved text is flow 0 (its length is the
    /// text length), the rewritten style sheets follow (kept as text for
    /// the FDST record); the joined flows are returned.
    pub fn set_text_flows(&mut self, resolved_text: &[u8], rewritten_css: &Vec<Vec<u8>>) -> (r: Vec<u8>)
        ensures
            r@ == joined_flows(resolved_text@, rewritten_css@),
            final(self).text_length == resolved_text@.len(),
            final(self).flows_length == r@.len(),
            final(self).css_flows@.len() == rewritten_css@.len(),
            forall|i: int|
                0 <= i < rewritten_css@.len() ==> (#[trigger] final(self).css_flows@[i])@ == utf8_lossy(
                    rewritten_css@[i]@,
                ),
            final(self).records == old(self).records,
            final(self).metadata == old(self).metadata,
            final(self).ncx_entries == old(self).ncx_entries,
            final(self).image_hrefs == old(self).image_hrefs,
            final(self).font_hrefs == old(self).font_hrefs,
    {
        let mut all: Vec<u8> = crate::kf8::bytes_to_vec(resolved_text);
        self.text_length = resolved_text.len();
        let mut css: Vec<String> = Vec::new();
        let mut i: usize = 0;
        while i < rewritten_css.len()
            invariant
                0 <= i <= rewritten_css@.len(),
                all@ == joined_flows(resolved_text@, rewritten_css@.take(i as int)),
                css@.len() == i,
                forall|j: int| 0 <= j < i ==> (#[trigger] css@[j])@ == utf8_lossy(rewritten_css@[j]@),
                self.text_length == resolved_text@.len(),
                self.records == old(self).records,
                self.metadata == old(self).metadata,
                self.ncx_entries == old(self).ncx_entries,
                self.image_hrefs == old(self).image_hrefs,
                self.font_hrefs == old(self).font_hrefs,
            decreases rewritten_css@.len() - i,
        {
            proof {
                assert(rewritten_css@.take(i + 1).drop_last() == rewritten_css@.take(i as int));
                assert(rewritten_css@.take(i + 1).last() == rewritten_css@[i as int]);
            }
            append_bytes(&mut all, rewritten_css[i].as_slice());
            css.push(crate::resources::lossy_text(rewritten_css[i].as_slice()));
            i = i + 1;
        }
        proof {
            assert(rewritten_css@.take(rewritten_css@.len() as int) == rewritten_css@);
        }
        self.flows_length = all.len();
        self.css_flows = css;
        all
    }

    /// Append the compressed text records (each followed by the multibyte
    /// indicator byte 0) and note the last text record. All records after
    /// record 0 count as text; when they do not end on a four-byte boundary
    /// of the raw stream, a zero padding record aligns the first non-text
    /// record. The record numbers must fit the 16-bit fields of the PalmDOC
    /// header (the last text record and the first non-text record).
    pub fn push_text_records(&mut self, compressed: Vec<Vec<u8>>)
        requires
            old(self).records@.len() >= 1,
            old(self).records@.len() + compressed@.len() < 0xFFFF,
            text_bytes(old(self).records@, rec_bytes(compressed@)) < usize::MAX,
        ensures
            ({
                let p = old(self).records@.len();
                let n = compressed@.len();
                let t = text_bytes(old(self).records@, rec_bytes(compressed@));
                &&& final(self).records@.len() == p + n + (if t % 4 == 0 {
                    0int
                } else {
                    1int
                })
                &&& forall|i: int| 0 <= i < p ==> #[trigger] final(self).records@[i] == old(self).records@[i]
                &&& forall|i: int|
                    0 <= i < n ==> (#[trigger] final(self).records@[p + i])@ == compressed@[i]@.push(0)
                &&& final(self).last_text_record == p - 1 + n
                &&& t % 4 != 0 ==> final(self).records@[(p + n) as int]@ == Seq::new((4 - t % 4) as nat, |_i: int| 0u8)
                &&& final(self).first_non_text_record == if t % 4 == 0 {
                    p + n
                } else {
                    p + n + 1
                }
                &&& final(self).first_non_text_record == final(self).records@.len()
                &&& total_len(rec_bytes(final(self).records@).skip(1)) % 4 == 0
            }),
            final(self).metadata == old(self).metadata,
            final(self).text_length == old(self).text_length,
            final(self).css_flows == old(self).css_flows,
            final(self).ncx_entries == old(self).ncx_entries,
            final(self).image_hrefs == old(self).image_hrefs,
            final(self).font_hrefs == old(self).font_hrefs,
    {
        let ghost cs = rec_bytes(compressed@);
        let ghost olds = rec_bytes(self.records@);
        let p = self.records.len();
        let mut total: usize = 0;
        let mut k: usize = 1;
        proof {
            lemma_total_prefix_skip(olds, 1);
        }
        while k < p
            invariant
                1 <= k <= p,
                p == self.records@.len(),
                olds == rec_bytes(self.records@),
                total_len(olds.skip(1)) + total_len(cs) + cs.len() < usize::MAX,
                total == total_len(olds.subrange(1, k as int)),
            decreases p - k,
        {
            proof {
                assert(olds.subrange(1, k + 1).drop_last() == olds.subrange(1, k as int));
                assert(olds.subrange(1, k + 1).last() == olds[k as int]);
                lemma_total_prefix_skip(olds, k + 1);
            }
            total = total + self.records[k].len();
            k = k + 1;
        }
        proof {
            assert(olds.subrange(1, p as int) == olds.skip(1));
        }
        let ghost base = total as int;
        assert(total == total_len(rec_bytes(self.records@).skip(1)));
        let mut i: usize = 0;
        let n = compressed.len();
        let mut it = compressed;
        let ghost orig = it@;
        while i < n
            invariant
                0 <= i <= n,
                n == orig.len(),
                it@ == orig.skip(i as int),
                cs == rec_bytes(orig),
                base == total_len(olds.skip(1)),
                base + total_len(cs) + n < usize::MAX,
                self.records@.len() == p + i,
                p >= 1,
                p == old(self).records@.len(),
                forall|j: int| 0 <= j < p ==> #[trigger] self.records@[j] == old(self).records@[j],
                forall|j: int| 0 <= j < i ==> (#[trigger] self.records@[p + j])@ == cs[j].push(0),
                total == base + total_len(cs.take(i as int)) + i,
                total == total_len(rec_bytes(self.records@).skip(1)),
                self.metadata == old(self).metadata,
                self.text_length == old(self).text_length,
                self.css_flows == old(self).css_flows,
                self.ncx_entries == old(self).ncx_entries,
                self.image_hrefs == old(self).image_hrefs,
                self.font_hrefs == old(self).font_hrefs,
            decreases n - i,
        {
            proof {
                assert(orig.skip(i as int)[0] == orig[i as int]);
                assert(cs.take(i + 1).drop_last() == cs.take(i as int));
                assert(cs.take(i + 1).last() == cs[i as int]);
                lemma_total_prefix(cs, i + 1);
            }
            let mut rec = it.remove(0);
            proof {
                assert(it@ =~= orig.skip(i + 1));
            }
            rec.push(0);
            total = total + rec.len();
            let ghost before = rec_bytes(self.records@).skip(1);
            let ghost rv = rec@;
            let ghost r0 = self.records@;
            self.records.push(rec);
            proof {
                assert(rec_bytes(self.records@) =~= rec_bytes(r0).push(rv));
                assert(rec_bytes(self.records@).skip(1) =~= before.push(rv));
                assert(before.push(rv).drop_last() == before);
            }
            i = i + 1;
        }
        proof {
            assert(cs.take(n as int) == cs);
        }
        self.last_text_record = (p - 1 + n) as u16;
        let remainder = total % 4;
        if remainder != 0 {
            let mut pad: Vec<u8> = Vec::new();
            crate::bytes::push_repeat(&mut pad, 0, 4 - remainder);
            let ghost before = rec_bytes(self.records@).skip(1);
            let ghost pv = pad@;
            let ghost r0 = self.records@;
            self.records.push(pad);
            proof {
                assert(rec_bytes(self.records@) =~= rec_bytes(r0).push(pv));
                assert(rec_bytes(self.records@).skip(1) =~= before.push(pv));
                assert(before.push(pv).drop_last() == before);
            }
            self.first_non_text_record = (p + n + 1) as u16;
        } else {
            self.first_non_text_record = (p + n) as u16;
        }
    }

    /// The uncompressed length of each text record: `RECORD_SIZE`, except
    /// the last, which holds the rest of the flows.
    pub fn text_record_lengths(&self) -> (r: Vec<u64>)
        requires
            self.last_text_record as int * RECORD_SIZE <= usize::MAX,
            self.last_text_record > 0 ==> (self.last_text_record - 1) * RECORD_SIZE <= self.flows_length,
        ensures
            r@.len() == self.last_text_record,
            forall|i: int|
                0 <= i < r@.len() ==> #[trigger] r@[i] == (if (i + 1) * RECORD_SIZE <= self.flows_length {
                    RECORD_SIZE as int
                } else {
                    self.flows_length - i * RECORD_SIZE
                }),
    {
        let last = self.last_text_record as usize;
        let total = self.flows_length;
        let mut lengths: Vec<u64> = Vec::new();
        let mut i: usize = 1;
        while i <= last
            invariant
                1 <= i <= last + 1,
                last == self.last_text_record,
                total == self.flows_length,
                last * RECORD_SIZE <= usize::MAX,
                last > 0 ==> (last - 1) * RECORD_SIZE <= total,
                lengths@.len() == i - 1,
                forall|j: int|
                    0 <= j < lengths@.len() ==> #[trigger] lengths@[j] == (if (j + 1) * RECORD_SIZE <= total {
                        RECORD_SIZE as int
                    } else {
                        total - j * RECORD_SIZE
                    }),
            decreases last + 1 - i,
        {
            let start = (i - 1) * RECORD_SIZE;
            assert(start <= total) by (nonlinear_arith)
                requires
                    start == (i - 1) * RECORD_SIZE,
                    1 <= i <= last,
                    (last - 1) * RECORD_SIZE <= total,
            ;
            let end = if total - start >= RECORD_SIZE {
                start + RECORD_SIZE
            } else {
                total
            };
            lengths.push((end - start) as u64);
            i = i + 1;
        }
        lengths
    }

    /// The trailing-byte-sequence entries of the NCX entries.
    pub fn tbs_entries(&self) -> (r: Vec<TbsEntry>)
        requires
            self.ncx_entries@.len() <= u32::MAX,
        ensures
            r@.len() == self.ncx_entries@.len(),
            forall|i: int|
                0 <= i < r@.len() ==> (#[trigger] r@[i]).index == i && r@[i].start == self.ncx_entries@[i].pos
                    && r@[i].length == self.ncx_entries@[i].length && r@[i].depth == self.ncx_entries@[i].depth
                    && r@[i].parent == self.ncx_entries@[i].parent,
    {
        let mut out: Vec<TbsEntry> = Vec::new();
        let mut i: usize = 0;
        while i < self.ncx_entries.len()
            invariant
                0 <= i <= self.ncx_entries@.len(),
                self.ncx_entries@.len() <= u32::MAX,
                out@.len() == i,
                forall|j: int|
                    0 <= j < i ==> (#[trigger] out@[j]).index == j && out@[j].start == self.ncx_entries@[j].pos
                        && out@[j].length == self.ncx_entries@[j].length && out@[j].depth
                        == self.ncx_entries@[j].depth && out@[j].parent == self.ncx_entries@[j].parent,
            decreases self.ncx_entries@.len() - i,
        {
            let e = &self.ncx_entries[i];
            out.push(TbsEntry { index: i as u32, start: e.pos as u64, length: e.length as u64, depth: e.depth, parent: e.parent });
            i = i + 1;
        }
        out
    }

    /// Append each text record's trailing byte sequence after its
    /// multibyte indicator byte (readers strip the trailers from the end
    /// first). Nothing is appended when there are no NCX entries or no text
    /// records.
    pub fn apply_trailing_byte_sequences(&mut self, tbs_data: Vec<Vec<u8>>)
        requires
            tbs_data@.len() <= old(self).last_text_record,
            old(self).last_text_record < old(self).records@.len(),
        ensures
            final(self).records@.len() == old(self).records@.len(),
            forall|i: int|
                0 <= i < old(self).records@.len() ==> (#[trigger] final(self).records@[i])@ == if old(self).ncx_entries@.len() > 0 && old(self).last_text_record > 0 && 1 <= i <= tbs_data@.len() {
                    old(self).records@[i]@ + tbs_data@[i - 1]@
                } else {
                    old(self).records@[i]@
                },
            final(self).last_text_record == old(self).last_text_record,
            final(self).metadata == old(self).metadata,
            final(self).ncx_entries == old(self).ncx_entries,
    {
        if self.ncx_entries.len() == 0 || self.last_text_record == 0 {
            return;
        }
        let ghost start = self.records@;
        let mut i: usize = 0;
        while i < tbs_data.len()
            invariant
                0 <= i <= tbs_data@.len(),
                tbs_data@.len() <= self.last_text_record,
                self.last_text_record < start.len(),
                self.last_text_record == old(self).last_text_record,
                self.metadata == old(self).metadata,
                self.ncx_entries == old(self).ncx_entries,
                start == old(self).records@,
                self.records@.len() == start.len(),
                forall|j: int|
                    0 <= j < start.len() ==> (#[trigger] self.records@[j])@ == if 1 <= j <= i {
                        start[j]@ + tbs_data@[j - 1]@
                    } else {
                        start[j]@
                    },
            decreases tbs_data@.len() - i,
        {
            let mut rec = self.records[i + 1].clone();
            proof {
                assert(rec@ == start[i + 1]@);
            }
            append_bytes(&mut rec, tbs_data[i].as_slice());
            self.records.set(i + 1, rec);
            i = i + 1;
        }
    }

    /// Append the records of one index (its index records, then its CNCX
    /// record when that is not empty) and return the number of its first
    /// record.
    pub fn place_index(&mut self, index_records: Vec<Vec<u8>>, cncx: Vec<u8>) -> (r: u32)
        ensures
            r == old(self).records@.len() as u32,
            rec_bytes(final(self).records@) == rec_bytes(old(self).records@) + rec_bytes(index_records@) + if cncx@.len()
                > 0 {
                seq![cncx@]
            } else {
                Seq::empty()
            },
            final(self).metadata == old(self).metadata,
            final(self).ncx_entries == old(self).ncx_entries,
            final(self).text_length == old(self).text_length,
            final(self).css_flows == old(self).css_flows,
            final(self).image_hrefs == old(self).image_hrefs,
            final(self).font_hrefs == old(self).font_hrefs,
            final(self).last_text_record == old(self).last_text_record,
            final(self).skel_index == old(self).skel_index,
            final(self).frag_index == old(self).frag_index,
            final(self).ncx_index == old(self).ncx_index,
            final(self).guide_index == old(self).guide_index,
    {
        let r = #[verifier::truncate] (self.records.len() as u32);
        let mut recs = index_records;
        let ghost added = rec_bytes(recs@);
        let mut moved: Vec<Vec<u8>> = Vec::new();
        let ghost start = rec_bytes(self.records@);
        while recs.len() > 0
            invariant
                rec_bytes(moved@) + rec_bytes(recs@) == added,
                rec_bytes(self.records@) == start + rec_bytes(moved@),
                self.metadata == old(self).metadata,
                self.ncx_entries == old(self).ncx_entries,
                self.text_length == old(self).text_length,
                self.css_flows == old(self).css_flows,
                self.image_hrefs == old(self).image_hrefs,
                self.font_hrefs == old(self).font_hrefs,
                self.last_text_record == old(self).last_text_record,
                self.skel_index == old(self).skel_index,
                self.frag_index == old(self).frag_index,
                self.ncx_index == old(self).ncx_index,
                self.guide_index == old(self).guide_index,
            decreases recs@.len(),
        {
            let ghost r0 = recs@;
            let ghost m0 = moved@;
            let ghost s0 = self.records@;
            let x = recs.remove(0);
            proof {
                assert(rec_bytes(r0) =~= seq![x@] + rec_bytes(recs@));
            }
            self.records.push(x.clone());
            moved.push(x);
            proof {
                assert(rec_bytes(self.records@) =~= rec_bytes(s0).push(x@));
                assert(rec_bytes(moved@) =~= rec_bytes(m0).push(x@));
                assert(rec_bytes(moved@) + rec_bytes(recs@) =~= added);
            }
        }
        proof {
            assert(rec_bytes(recs@) =~= Seq::<Seq<u8>>::empty());
            assert(rec_bytes(moved@) =~= added);
        }
        if cncx.len() > 0 {
            let ghost s0 = self.records@;
            self.records.push(cncx);
            proof {
                assert(rec_bytes(self.records@) =~= rec_bytes(s0).push(cncx@));
            }
        }
        proof {
            assert(rec_bytes(final(self).records@) =~= rec_bytes(old(self).records@) + rec_bytes(index_records@) + if cncx@.len() > 0 {
                seq![cncx@]
            } else {
                Seq::empty()
            });
        }
        r
    }
}


/// The raw-stream bytes of the text records: those already after record 0,
/// and the new ones, each with its indicator byte.
pub open spec fn text_bytes(old_records: Seq<Vec<u8>>, cs: Seq<Seq<u8>>) -> nat {
    total_len(rec_bytes(old_records).skip(1)) + total_len(cs) + cs.len()
}

/// The lengths of the records from 1 to `k`, added up step by step.
proof fn lemma_total_prefix_skip(rs: Seq<Seq<u8>>, k: int)
    requires
        1 <= k <= rs.len(),
    ensures
        total_len(rs.subrange(1, k)) <= total_len(rs.skip(1)),
    decreases rs.len() - k,
{
    if k < rs.len() {
        lemma_total_prefix_skip(rs, k + 1);
        assert(rs.subrange(1, k + 1).drop_last() == rs.subrange(1, k));
    } else {
        assert(rs.subrange(1, k) == rs.skip(1));
    }
}

/// Adding one more record to the total length.
proof fn lemma_total_prefix(rs: Seq<Seq<u8>>, k: int)
    requires
        0 < k <= rs.len(),
    ensures
        total_len(rs.take(k)) == total_len(rs.take(k - 1)) + rs[k - 1].len(),
        total_len(rs.take(k)) <= total_len(rs),
    decreases rs.len() - k,
{
    assert(rs.take(k).drop_last() == rs.take(k - 1));
    if k < rs.len() {
        lemma_total_prefix(rs, k + 1);
    } else {
        assert(rs.take(k) == rs);
    }
}


/// The records of one index: its index records, then its CNCX record when
/// that is not empty.
pub open spec fn index_block(recs: Seq<Vec<u8>>, cncx: Seq<u8>) -> Seq<Seq<u8>> {
    rec_bytes(recs) + if cncx.len() > 0 {
        seq![cncx]
    } else {
        Seq::empty()
    }
}

/// The records of an index that is built, none otherwise.
pub open spec fn opt_block(b: Option<(Vec<Vec<u8>>, Vec<u8>)>) -> Seq<Seq<u8>> {
    match b {
        Some(x) => index_block(x.0@, x.1@),
        None => Seq::empty(),
    }
}

/// The first record number of an index that is built.
pub open spec fn opt_index(b: Option<(Vec<Vec<u8>>, Vec<u8>)>, at: nat, prior: u32) -> u32 {
    match b {
        Some(_) => at as u32,
        None => prior,
    }
}

impl Kf8Builder {
    /// Append the index records that were built, in order: the skeleton
    /// index, the fragment index with its CNCX, the NCX index with its CNCX
    /// (its entries are kept for the trailing byte sequences), and the guide
    /// index with its CNCX; each index's first record number goes into the
    /// header fields. An index that is `None` was not built (its table is
    /// empty) and keeps its "no index" value.
    pub fn build_kf8_indices(
        &mut self,
        skel: Option<(Vec<Vec<u8>>, Vec<u8>)>,
        frag: Option<(Vec<Vec<u8>>, Vec<u8>)>,
        ncx: Option<(Vec<Vec<u8>>, Vec<u8>)>,
        ncx_entries: Vec<NcxBuildEntry>,
        guide: Option<(Vec<Vec<u8>>, Vec<u8>)>,
    )
        ensures
            rec_bytes(final(self).records@) == rec_bytes(old(self).records@) + opt_block(skel) + opt_block(frag)
                + opt_block(ncx) + opt_block(guide),
            final(self).skel_index == opt_index(skel, old(self).records@.len(), old(self).skel_index),
            final(self).frag_index == opt_index(
                frag,
                old(self).records@.len() + opt_block(skel).len(),
                old(self).frag_index,
            ),
            final(self).ncx_index == opt_index(
                ncx,
                old(self).records@.len() + opt_block(skel).len() + opt_block(frag).len(),
                old(self).ncx_index,
            ),
            final(self).guide_index == opt_index(
                guide,
                old(self).records@.len() + opt_block(skel).len() + opt_block(frag).len() + opt_block(ncx).len(),
                old(self).guide_index,
            ),
            final(self).ncx_entries@ == if ncx is Some {
                ncx_entries@
            } else {
                old(self).ncx_entries@
            },
            final(self).metadata == old(self).metadata,
            final(self).text_length == old(self).text_length,
            final(self).css_flows == old(self).css_flows,
            final(self).image_hrefs == old(self).image_hrefs,
            final(self).font_hrefs == old(self).font_hrefs,
            final(self).last_text_record == old(self).last_text_record,
    {
        let ghost r0 = rec_bytes(self.records@);
        match skel {
            Some((recs, cncx)) => {
                let at = self.place_index(recs, cncx);
                self.skel_index = at;
            },
            None => {},
        }
        let ghost r1 = rec_bytes(self.records@);
        proof {
            assert(r1 =~= r0 + opt_block(skel));
        }
        match frag {
            Some((recs, cncx)) => {
                let at = self.place_index(recs, cncx);
                self.frag_index = at;
            },
            None => {},
        }
        let ghost r2 = rec_bytes(self.records@);
        proof {
            assert(r2 =~= r1 + opt_block(frag));
        }
        match ncx {
            Some((recs, cncx)) => {
                let at = self.place_index(recs, cncx);
                self.ncx_index = at;
                self.ncx_entries = ncx_entries;
            },
            None => {},
        }
        let ghost r3 = rec_bytes(self.records@);
        proof {
            assert(r3 =~= r2 + opt_block(ncx));
        }
        match guide {
            Some((recs, cncx)) => {
                let at = self.place_index(recs, cncx);
                self.guide_index = at;
            },
            None => {},
        }
        proof {
            assert(rec_bytes(self.records@) =~= r3 + opt_block(guide));
            assert(rec_bytes(self.records@) =~= r0 + opt_block(skel) + opt_block(frag) + opt_block(ncx) + opt_block(guide));
        }
    }
}




/// Which KF8 indices to build, and from what.
pub struct IndexPlan {
    /// The skeleton index is built.
    pub skel: bool,
    /// The fragment index is built.
    pub frag: bool,
    /// The NCX index is built (from `ncx_entries`).
    pub ncx: bool,
    /// The flattened TOC.
    pub ncx_entries: Vec<NcxBuildEntry>,
    /// The guide index is built (from `guide_entries`).
    pub guide: bool,
    /// The guide entries.
    pub guide_entries: Vec<GuideBuildEntry>,
}

impl Kf8Builder {
    /// Decide which indices to build once the text is chunked (`chunked`;
    /// without a chunking nothing is built): the skeleton index when the
    /// skeleton table has `skel_len > 0` rows, the fragment index when the
    /// chunk table has `chunk_len > 0` rows, the NCX index from the
    /// flattened TOC when the TOC and its flattening are not empty, and the
    /// guide index from the landmarks when they give any guide entry.
    pub fn plan_kf8_indices(
        &self,
        chunked: bool,
        skel_len: usize,
        chunk_len: usize,
        toc: &Vec<TocEntry>,
        landmarks: &Vec<Landmark>,
        cover_image: Option<&str>,
        id_map: &PairMap<String>,
        aid_offset_map: &StrMap<(usize, usize, usize)>,
        filepos_map: &StrMap<Vec<(usize, String)>>,
    ) -> (r: IndexPlan)
        requires
            chunked && toc@.len() > 0 ==> toc_count(toc@) <= i32::MAX,
            chunked ==> aid_offset_map.keys_distinct(),
        ensures
            r.skel == (chunked && skel_len > 0),
            r.frag == (chunked && chunk_len > 0),
            chunked && toc@.len() > 0 ==> flat_toc_ok(
                r.ncx_entries@,
                toc@,
                self.text_length as u32,
                *id_map,
                *aid_offset_map,
                *filepos_map,
            ),
            !(chunked && toc@.len() > 0) ==> r.ncx_entries@.len() == 0,
            chunked ==> guide_entries_ok(r.guide_entries@, landmarks@, *id_map, *aid_offset_map),
            !chunked ==> r.guide_entries@.len() == 0,
            r.ncx == (r.ncx_entries@.len() > 0),
            r.guide == (r.guide_entries@.len() > 0),
    {
        let ncx_entries = if chunked && toc.len() > 0 {
            flatten_toc(toc, #[verifier::truncate] (self.text_length as u32), id_map, aid_offset_map, filepos_map)
        } else {
            Vec::new()
        };
        let guide_entries = if chunked {
            collect_guide_entries(landmarks, cover_image, id_map, aid_offset_map)
        } else {
            Vec::new()
        };
        let ncx = ncx_entries.len() > 0;
        let guide = guide_entries.len() > 0;
        IndexPlan { skel: chunked && skel_len > 0, frag: chunked && chunk_len > 0, ncx, ncx_entries, guide, guide_entries }
    }
}

} // verus!
