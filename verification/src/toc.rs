//! Flattening the hierarchical table of contents into NCX index entries.
//!
//! Entries are listed in document (pre-)order; each records its depth, its
//! parent and first/last child indices, its text position, and a length
//! that reaches up to the next entry at the same or a shallower depth.

use vstd::prelude::*;
use crate::strmap::{StrMap, PairMap};
use crate::text::{chars_of, starts_with};
use crate::anchors::{
    split_href, href_file, href_fragment, id_position, lookup_id_position, filepos_word,
    resolve_filepos_entry, filepos_entry,
};

verus! {

/// A table-of-contents entry: its title, target href and nested entries.
pub struct TocEntry {
    pub title: String,
    pub href: String,
    pub children: Vec<TocEntry>,
}

/// One entry of the NCX index.
pub struct NcxBuildEntry {
    pub pos: u32,
    pub length: u32,
    pub label: String,
    pub depth: u32,
    pub parent: i32,
    pub first_child: i32,
    pub last_child: i32,
    pub pos_fid: Option<(u32, u32)>,
}

/// A TOC entry placed in document order: (href, title, depth, parent index).
pub type FlatV = (Seq<char>, Seq<char>, int, int);

/// The entries of a TOC forest in document order, the first at index `base`,
/// each with its depth and the index of its parent (`parent` for the roots).
pub open spec fn toc_flat(es: Seq<TocEntry>, depth: int, parent: int, base: int) -> Seq<FlatV>
    decreases es,
{
    if es.len() == 0 {
        Seq::empty()
    } else {
        let prev = toc_flat(es.drop_last(), depth, parent, base);
        let idx = base + prev.len();
        prev + seq![(es.last().href@, es.last().title@, depth, parent)] + toc_flat(
            es.last().children@,
            depth + 1,
            idx,
            idx + 1,
        )
    }
}

/// Number of entries of a TOC forest.
pub open spec fn toc_count(es: Seq<TocEntry>) -> nat
    decreases es,
{
    if es.len() == 0 {
        0
    } else {
        toc_count(es.drop_last()) + 1 + toc_count(es.last().children@)
    }
}

pub proof fn lemma_toc_flat_len(es: Seq<TocEntry>, depth: int, parent: int, base: int)
    ensures
        toc_flat(es, depth, parent, base).len() == toc_count(es),
    decreases es,
{
    if es.len() > 0 {
        lemma_toc_flat_len(es.drop_last(), depth, parent, base);
        let prev = toc_flat(es.drop_last(), depth, parent, base);
        let idx = base + prev.len();
        lemma_toc_flat_len(es.last().children@, depth + 1, idx, idx + 1);
    }
}

/// The position entry a TOC href resolves to: MOBI `filepos` fragments go
/// through the filepos table, other fragments through the element ids.
pub open spec fn toc_lookup_ok(
    href: Seq<char>,
    id_map: PairMap<String>,
    aid_offset_map: StrMap<(usize, usize, usize)>,
    filepos_map: StrMap<Vec<(usize, String)>>,
    r: Option<(usize, usize, usize)>,
) -> bool {
    let file = href_file(href);
    let fragment = href_fragment(href);
    if fragment.len() >= 7 && fragment.take(7) == filepos_word() {
        r == filepos_entry(file, fragment, filepos_map, aid_offset_map)
    } else {
        r == id_position(id_map, aid_offset_map, file, fragment)
    }
}

/// (fid, offset in chunk, text position) of a resolved entry; zeros when
/// unresolved.
pub open spec fn toc_place(a: Option<(usize, usize, usize)>) -> (u32, u32, u32) {
    match a {
        Some(t) => (t.0 as u32, t.1 as u32, t.2 as u32),
        None => (0, 0, 0),
    }
}

/// Resolve a TOC href to its position entry.
fn toc_position(
    href: &str,
    id_map: &PairMap<String>,
    aid_offset_map: &StrMap<(usize, usize, usize)>,
    filepos_map: &StrMap<Vec<(usize, String)>>,
) -> (r: Option<(usize, usize, usize)>)
    ensures
        toc_lookup_ok(href@, *id_map, *aid_offset_map, *filepos_map, r),
{
    let (file, fragment) = split_href(href);
    let fc = chars_of(fragment.as_str());
    let word: Vec<char> = vec!['f', 'i', 'l', 'e', 'p', 'o', 's'];
    proof {
        assert(word@ == filepos_word());
    }
    if starts_with(&fc, &word) {
        resolve_filepos_entry(file.as_str(), fragment.as_str(), filepos_map, aid_offset_map)
    } else {
        lookup_id_position(id_map, aid_offset_map, file.as_str(), fragment.as_str())
    }
}

/// A TOC entry placed in document order, before lengths and child links
/// are known.
struct TempEntry {
    pos: u32,
    label: String,
    depth: u32,
    parent: i32,
    pos_fid: (u32, u32),
}

/// `t` is the flattened form of `f`, with a position that `f`'s href
/// resolves to.
pub open spec fn temp_ok(
    t: (u32, Seq<char>, u32, i32, (u32, u32)),
    f: FlatV,
    id_map: PairMap<String>,
    aid_offset_map: StrMap<(usize, usize, usize)>,
    filepos_map: StrMap<Vec<(usize, String)>>,
) -> bool {
    &&& t.1 == f.1
    &&& t.2 as int == f.2
    &&& t.3 as int == f.3
    &&& exists|a: Option<(usize, usize, usize)>|
        #![trigger toc_place(a)]
        toc_lookup_ok(f.0, id_map, aid_offset_map, filepos_map, a) && t.0 == toc_place(a).2 && t.4 == (
            toc_place(a).0,
            toc_place(a).1,
        )
}

spec fn temp_view(t: TempEntry) -> (u32, Seq<char>, u32, i32, (u32, u32)) {
    (t.pos, t.label@, t.depth, t.parent, t.pos_fid)
}

#[verifier::spinoff_prover]
#[verifier::rlimit(30)]
fn flatten_recursive(
    entries: &Vec<TocEntry>,
    depth: u32,
    parent_idx: i32,
    id_map: &PairMap<String>,
    aid_offset_map: &StrMap<(usize, usize, usize)>,
    filepos_map: &StrMap<Vec<(usize, String)>>,
    result: &mut Vec<TempEntry>,
)
    requires
        parent_idx == -1 || 0 <= parent_idx < old(result)@.len(),
        old(result)@.len() + toc_count(entries@) <= i32::MAX,
        depth + toc_count(entries@) <= i32::MAX,
    ensures
        final(result)@.len() == old(result)@.len() + toc_count(entries@),
        forall|i: int| 0 <= i < old(result)@.len() ==> #[trigger] final(result)@[i] == old(result)@[i],
        forall|i: int|
            0 <= i < toc_count(entries@) ==> temp_ok(
                temp_view(#[trigger] final(result)@[old(result)@.len() + i]),
                toc_flat(entries@, depth as int, parent_idx as int, old(result)@.len() as int)[i],
                *id_map,
                *aid_offset_map,
                *filepos_map,
            ),
    decreases entries@,
{
    let ghost base = result@.len() as int;
    let ghost es = entries@;
    let mut k: usize = 0;
    proof {
        lemma_toc_flat_len(es.take(0), depth as int, parent_idx as int, base);
        assert(es.take(0) == Seq::<TocEntry>::empty());
    }
    while k < entries.len()
        invariant
            0 <= k <= es.len(),
            es == entries@,
            base == old(result)@.len(),
            parent_idx == -1 || 0 <= parent_idx < base,
            base + toc_count(es) <= i32::MAX,
            depth + toc_count(es) <= i32::MAX,
            toc_count(es.take(k as int)) <= toc_count(es),
            result@.len() == base + toc_count(es.take(k as int)),
            forall|i: int| 0 <= i < base ==> #[trigger] result@[i] == old(result)@[i],
            forall|i: int|
                0 <= i < toc_count(es.take(k as int)) ==> temp_ok(
                    temp_view(#[trigger] result@[base + i]),
                    toc_flat(es.take(k as int), depth as int, parent_idx as int, base)[i],
                    *id_map,
                    *aid_offset_map,
                    *filepos_map,
                ),
        decreases es.len() - k,
    {
        let entry = &entries[k];
        let ghost pre = es.take(k as int);
        let ghost nxt = es.take(k + 1);
        proof {
            assert(nxt.drop_last() == pre);
            assert(nxt.last() == es[k as int]);
            lemma_toc_count_prefix(es, k as int + 1);
            lemma_toc_flat_len(pre, depth as int, parent_idx as int, base);
        }
        let current_idx = result.len();
        let a = toc_position(entry.href.as_str(), id_map, aid_offset_map, filepos_map);
        let (fid, off_in_chunk, pos) = match a {
            Some((seq, off_in_chunk, off_text)) => (seq as u32, off_in_chunk as u32, off_text as u32),
            None => (0u32, 0u32, 0u32),
        };
        let t = TempEntry {
            pos,
            label: entry.title.clone(),
            depth,
            parent: parent_idx,
            pos_fid: (fid, off_in_chunk),
        };
        let ghost before = result@;
        result.push(t);
        proof {
            assert(toc_lookup_ok(entry.href@, *id_map, *aid_offset_map, *filepos_map, a) && t.pos == toc_place(a).2
                && t.pos_fid == (toc_place(a).0, toc_place(a).1));
            assert(t.label@ == entry.title@);
            assert(temp_view(t).1 == entry.title@);
            assert(temp_ok(temp_view(t), (entry.href@, entry.title@, depth as int, parent_idx as int), *id_map, *aid_offset_map, *filepos_map));
        }
        let ghost mid = result@;
        flatten_recursive(
            &entry.children,
            depth + 1,
            current_idx as i32,
            id_map,
            aid_offset_map,
            filepos_map,
            result,
        );
        proof {
            let prevf = toc_flat(pre, depth as int, parent_idx as int, base);
            let kidsf = toc_flat(es[k as int].children@, depth + 1, current_idx as int, current_idx + 1);
            let h: FlatV = (es[k as int].href@, es[k as int].title@, depth as int, parent_idx as int);
            assert(toc_flat(nxt, depth as int, parent_idx as int, base) == prevf + seq![h] + kidsf);
            lemma_toc_flat_len(es[k as int].children@, depth + 1, current_idx as int, current_idx + 1);
            assert forall|i: int| 0 <= i < base implies #[trigger] result@[i] == old(result)@[i] by {
                assert(result@[i] == mid[i]);
                assert(mid[i] == before[i]);
            }
            assert forall|i: int|
                0 <= i < toc_count(nxt) implies temp_ok(
                    temp_view(#[trigger] result@[base + i]),
                    toc_flat(nxt, depth as int, parent_idx as int, base)[i],
                    *id_map,
                    *aid_offset_map,
                    *filepos_map,
                ) by {
                let full = toc_flat(nxt, depth as int, parent_idx as int, base);
                if i < prevf.len() {
                    assert(full[i] == prevf[i]);
                    assert(result@[base + i] == mid[base + i]);
                    assert(mid[base + i] == before[base + i]);
                } else if i == prevf.len() {
                    assert(full[i] == h);
                    assert(result@[base + i] == mid[base + i]);
                    assert(mid[base + i] == t);
                } else {
                    let j = i - prevf.len() - 1;
                    assert(full[i] == kidsf[j]);
                    assert(base + i == mid.len() + j);
                }
            }
        }
        k = k + 1;
    }
    proof {
        assert(es.take(es.len() as int) == es);
    }
}

/// A prefix of a forest has no more entries than the forest.
proof fn lemma_toc_count_prefix(es: Seq<TocEntry>, k: int)
    requires
        0 <= k <= es.len(),
    ensures
        toc_count(es.take(k)) <= toc_count(es),
    decreases es.len() - k,
{
    if k < es.len() {
        lemma_toc_count_prefix(es, k + 1);
        assert(es.take(k + 1).drop_last() == es.take(k));
    } else {
        assert(es.take(k) == es);
    }
}


/// Every entry's parent is the forest's parent or an earlier entry.
proof fn lemma_toc_flat_parents(es: Seq<TocEntry>, depth: int, parent: int, base: int)
    ensures
        forall|i: int|
            0 <= i < toc_flat(es, depth, parent, base).len() ==> (#[trigger] toc_flat(es, depth, parent, base)[i]).3
                == parent || (base <= toc_flat(es, depth, parent, base)[i].3 < base + i),
    decreases es,
{
    if es.len() > 0 {
        let prev = toc_flat(es.drop_last(), depth, parent, base);
        let idx = base + prev.len();
        let kids = toc_flat(es.last().children@, depth + 1, idx, idx + 1);
        lemma_toc_flat_parents(es.drop_last(), depth, parent, base);
        lemma_toc_flat_parents(es.last().children@, depth + 1, idx, idx + 1);
        let full = toc_flat(es, depth, parent, base);
        assert forall|i: int| 0 <= i < full.len() implies (#[trigger] full[i]).3 == parent || (base <= full[i].3 < base + i) by {
            if i < prev.len() {
                assert(full[i] == prev[i]);
            } else if i == prev.len() {
            } else {
                assert(full[i] == kids[i - prev.len() - 1]);
            }
        }
    }
}

/// Index of the first entry among the first `n` whose parent is `i`
/// (-1 when none).
pub open spec fn first_kid(flat: Seq<FlatV>, i: int, n: int) -> int
    decreases n,
{
    if n <= 0 {
        -1
    } else {
        let f = first_kid(flat, i, n - 1);
        if f == -1 && flat[n - 1].3 == i {
            n - 1
        } else {
            f
        }
    }
}

/// Index of the last entry among the first `n` whose parent is `i` (-1
/// when none).
pub open spec fn last_kid(flat: Seq<FlatV>, i: int, n: int) -> int
    decreases n,
{
    if n <= 0 {
        -1
    } else if flat[n - 1].3 == i {
        n - 1
    } else {
        last_kid(flat, i, n - 1)
    }
}

/// The smallest position, among the first `n` entries, of an entry at the
/// same or a shallower depth than entry `i` and after it.
pub open spec fn next_start(pd: Seq<(u32, u32)>, i: int, n: int) -> Option<u32>
    decreases n,
{
    if n <= 0 {
        None
    } else {
        let m = next_start(pd, i, n - 1);
        let e = pd[n - 1];
        if e.1 <= pd[i].1 && e.0 > pd[i].0 {
            match m {
                None => Some(e.0),
                Some(v) => Some(
                    if e.0 < v {
                        e.0
                    } else {
                        v
                    },
                ),
            }
        } else {
            m
        }
    }
}

/// The length of entry `i`: up to the next entry at the same or a shallower
/// depth (or to the end of the text), never negative.
pub open spec fn ncx_length(pd: Seq<(u32, u32)>, i: int, text_length: u32) -> u32 {
    let end = match next_start(pd, i, pd.len() as int) {
        Some(v) => v,
        None => text_length,
    };
    if end >= pd[i].0 {
        (end - pd[i].0) as u32
    } else {
        0
    }
}

/// (position, depth) of each NCX entry.
pub open spec fn ncx_pd(r: Seq<NcxBuildEntry>) -> Seq<(u32, u32)> {
    r.map_values(|e: NcxBuildEntry| (e.pos, e.depth))
}

/// (position, label, depth, parent, (fid, offset)) of an NCX entry.
pub open spec fn ncx_temp(e: NcxBuildEntry) -> (u32, Seq<char>, u32, i32, (u32, u32)) {
    (e.pos, e.label@, e.depth, e.parent, e.pos_fid.unwrap())
}

/// `r` is the flattened TOC `entries`: one NCX entry per TOC entry in
/// document order, with its resolved position, its length and its first
/// and last children.
pub open spec fn flat_toc_ok(
    r: Seq<NcxBuildEntry>,
    entries: Seq<TocEntry>,
    text_length: u32,
    id_map: PairMap<String>,
    aid_offset_map: StrMap<(usize, usize, usize)>,
    filepos_map: StrMap<Vec<(usize, String)>>,
) -> bool {
    &&& r.len() == toc_flat(entries, 0, -1, 0).len()
    &&& forall|i: int|
        0 <= i < r.len() ==> (#[trigger] r[i]).pos_fid is Some && temp_ok(
            ncx_temp(r[i]),
            toc_flat(entries, 0, -1, 0)[i],
            id_map,
            aid_offset_map,
            filepos_map,
        )
    &&& forall|i: int| 0 <= i < r.len() ==> (#[trigger] r[i]).length == ncx_length(ncx_pd(r), i, text_length)
    &&& forall|i: int|
        0 <= i < r.len() ==> (#[trigger] r[i]).first_child as int == first_kid(
            toc_flat(entries, 0, -1, 0),
            i,
            r.len() as int,
        ) && r[i].last_child as int == last_kid(toc_flat(entries, 0, -1, 0), i, r.len() as int)
}

/// Flatten the hierarchical TOC into the linear NCX entry list: document
/// order, depth and parent of each entry, its position (resolved through the
/// chunker's tables; zero when unresolved), a length reaching to the next
/// entry at the same or a shallower depth (or the end of the text), and the
/// indices of its first and last children (-1 when none).
pub fn flatten_toc(
    entries: &Vec<TocEntry>,
    text_length: u32,
    id_map: &PairMap<String>,
    aid_offset_map: &StrMap<(usize, usize, usize)>,
    filepos_map: &StrMap<Vec<(usize, String)>>,
) -> (r: Vec<NcxBuildEntry>)
    requires
        toc_count(entries@) <= i32::MAX,
    ensures
        flat_toc_ok(r@, entries@, text_length, *id_map, *aid_offset_map, *filepos_map),
{
    let ghost flat = toc_flat(entries@, 0, -1, 0);
    let mut result: Vec<TempEntry> = Vec::new();
    flatten_recursive(entries, 0, -1, id_map, aid_offset_map, filepos_map, &mut result);
    proof {
        lemma_toc_flat_len(entries@, 0, -1, 0);
        lemma_toc_flat_parents(entries@, 0, -1, 0);
        assert forall|k: int| 0 <= k < result@.len() implies temp_ok(temp_view(#[trigger] result@[k]), flat[k], *id_map, *aid_offset_map, *filepos_map) by {
            assert(result@[0 + k] == result@[k]);
        }
    }
    let n = result.len();
    let ghost pd = result@.map_values(|t: TempEntry| (t.pos, t.depth));

    // Recompute lengths from the hierarchy: each entry covers up to the next
    // entry at the same or shallower depth.
    let mut new_lengths: Vec<u32> = Vec::new();
    let mut i: usize = 0;
    while i < n
        invariant
            0 <= i <= n,
            n == result@.len(),
            pd == result@.map_values(|t: TempEntry| (t.pos, t.depth)),
            new_lengths@.len() == i,
            forall|k: int| 0 <= k < i ==> #[trigger] new_lengths@[k] == ncx_length(pd, k, text_length),
        decreases n - i,
    {
        let pos_i = result[i].pos;
        let depth_i = result[i].depth;
        let mut best: Option<u32> = None;
        let mut j: usize = 0;
        while j < n
            invariant
                0 <= j <= n,
                i < n,
                n == result@.len(),
                pd == result@.map_values(|t: TempEntry| (t.pos, t.depth)),
                pos_i == pd[i as int].0,
                depth_i == pd[i as int].1,
                best == next_start(pd, i as int, j as int),
            decreases n - j,
        {
            let e_pos = result[j].pos;
            let e_depth = result[j].depth;
            if e_depth <= depth_i && e_pos > pos_i {
                best = match best {
                    None => Some(e_pos),
                    Some(v) => Some(if e_pos < v { e_pos } else { v }),
                };
            }
            j = j + 1;
        }
        let next = match best {
            Some(v) => v,
            None => text_length,
        };
        new_lengths.push(next.saturating_sub(pos_i));
        i = i + 1;
    }

    // First and last child of every entry.
    let mut firsts: Vec<i32> = Vec::new();
    let mut lasts: Vec<i32> = Vec::new();
    let mut i: usize = 0;
    while i < n
        invariant
            0 <= i <= n,
            firsts@.len() == i,
            lasts@.len() == i,
            forall|k: int| 0 <= k < i ==> #[trigger] firsts@[k] == -1 && lasts@[k] == -1,
        decreases n - i,
    {
        firsts.push(-1);
        lasts.push(-1);
        i = i + 1;
    }
    let mut j: usize = 0;
    while j < n
        invariant
            0 <= j <= n,
            n == result@.len(),
            n <= i32::MAX,
            flat.len() == n,
            firsts@.len() == n,
            lasts@.len() == n,
            forall|k: int| 0 <= k < n ==> (#[trigger] result@[k]).parent as int == flat[k].3,
            forall|k: int| 0 <= k < n ==> #[trigger] flat[k].3 == -1 || (0 <= flat[k].3 < k),
            forall|q: int| 0 <= q < n ==> #[trigger] firsts@[q] as int == first_kid(flat, q, j as int) && lasts@[q] as int == last_kid(flat, q, j as int),
        decreases n - j,
    {
        let p = result[j].parent;
        if p >= 0 {
            let pu = p as usize;
            if firsts[pu] == -1 {
                firsts.set(pu, j as i32);
            }
            lasts.set(pu, j as i32);
        }
        j = j + 1;
    }

    let mut out: Vec<NcxBuildEntry> = Vec::new();
    let mut k: usize = 0;
    while k < n
        invariant
            0 <= k <= n,
            n == result@.len(),
            new_lengths@.len() == n,
            firsts@.len() == n,
            lasts@.len() == n,
            out@.len() == k,
            forall|t: int|
                0 <= t < k ==> (#[trigger] out@[t]).pos == result@[t].pos && out@[t].depth == result@[t].depth
                    && out@[t].length == new_lengths@[t] && ncx_temp(out@[t]) == temp_view(result@[t])
                    && out@[t].pos_fid is Some && out@[t].first_child == firsts@[t] && out@[t].last_child == lasts@[t],
        decreases n - k,
    {
        let t = &result[k];
        out.push(
            NcxBuildEntry {
                pos: t.pos,
                length: new_lengths[k],
                label: t.label.clone(),
                depth: t.depth,
                parent: t.parent,
                first_child: firsts[k],
                last_child: lasts[k],
                pos_fid: Some(t.pos_fid),
            },
        );
        k = k + 1;
    }
    proof {
        assert(ncx_pd(out@) =~= pd);
    }
    out
}

} // verus!
