//! The K8 guide: book landmarks (cover, start of reading, table of
//! contents, ...) resolved to text positions, one entry per guide type,
//! sorted by type as Kindle's binary search of the index expects.

use vstd::prelude::*;
use crate::strmap::{StrMap, PairMap};
use crate::text::{chars_of, chars_eq, lex_lt, lex_less, lemma_lex_irreflexive, lemma_lex_asym, lemma_lex_trans, lemma_lex_total};
use crate::anchors::{split_href, href_file, href_fragment, id_position, lookup_id_position};

verus! {

/// Kind of a book landmark.
#[derive(Debug, Clone, Copy, PartialEq, Eq, Structural)]
pub enum LandmarkType {
    Cover,
    TitlePage,
    Toc,
    StartReading,
    BodyMatter,
    FrontMatter,
    BackMatter,
    Acknowledgements,
    Bibliography,
    Glossary,
    Index,
    Preface,
    Endnotes,
    Loi,
    Lot,
}

/// A landmark of the book: its kind, target href and label.
pub struct Landmark {
    pub landmark_type: LandmarkType,
    pub href: String,
    pub label: String,
}

/// One entry of the K8 guide index.
pub struct GuideBuildEntry {
    pub guide_type: String,
    pub title: String,
    pub pos_fid: (u32, u32),
}

/// A guide entry as plain values: (type, title, (fid, offset)).
pub open spec fn guide_view(e: GuideBuildEntry) -> (Seq<char>, Seq<char>, (u32, u32)) {
    (e.guide_type@, e.title@, e.pos_fid)
}

/// The KF8 guide reference type Kindle expects for a landmark kind.
pub open spec fn guide_type_name(lt: LandmarkType) -> Seq<char> {
    match lt {
        LandmarkType::Cover => seq!['c', 'o', 'v', 'e', 'r'],
        LandmarkType::TitlePage => seq!['t', 'i', 't', 'l', 'e', '-', 'p', 'a', 'g', 'e'],
        LandmarkType::Toc => seq!['t', 'o', 'c'],
        LandmarkType::StartReading => seq!['s', 't', 'a', 'r', 't'],
        LandmarkType::BodyMatter => seq!['t', 'e', 'x', 't'],
        LandmarkType::FrontMatter => seq!['p', 'r', 'e', 'f', 'a', 'c', 'e'],
        LandmarkType::BackMatter => seq!['b', 'a', 'c', 'k', 'm', 'a', 't', 't', 'e', 'r'],
        LandmarkType::Acknowledgements => seq![
            'a', 'c', 'k', 'n', 'o', 'w', 'l', 'e', 'd', 'g', 'e', 'm', 'e', 'n', 't', 's'
        ],
        LandmarkType::Bibliography => seq!['b', 'i', 'b', 'l', 'i', 'o', 'g', 'r', 'a', 'p', 'h', 'y'],
        LandmarkType::Glossary => seq!['g', 'l', 'o', 's', 's', 'a', 'r', 'y'],
        LandmarkType::Index => seq!['i', 'n', 'd', 'e', 'x'],
        LandmarkType::Preface => seq!['p', 'r', 'e', 'f', 'a', 'c', 'e'],
        LandmarkType::Endnotes => seq!['n', 'o', 't', 'e', 's'],
        LandmarkType::Loi => seq!['l', 'o', 'i'],
        LandmarkType::Lot => seq!['l', 'o', 't'],
    }
}

/// The word `start`.
pub open spec fn start_name() -> Seq<char> {
    seq!['s', 't', 'a', 'r', 't']
}

/// The word `Beginning`.
pub open spec fn beginning_name() -> Seq<char> {
    seq!['B', 'e', 'g', 'i', 'n', 'n', 'i', 'n', 'g']
}

/// Map a landmark kind to the KF8 guide reference type string Kindle expects
/// ("cover", "start", "toc", "notes", ...). Every kind has one.
pub fn landmark_to_guide_type(lt: LandmarkType) -> (r: Option<&'static str>)
    ensures
        r matches Some(s) && s@ == guide_type_name(lt),
{
    let s: &'static str = match lt {
        LandmarkType::Cover => {
            proof {
                reveal_strlit("cover");
            }
            "cover"
        },
        LandmarkType::TitlePage => {
            proof {
                reveal_strlit("title-page");
            }
            "title-page"
        },
        LandmarkType::Toc => {
            proof {
                reveal_strlit("toc");
            }
            "toc"
        },
        LandmarkType::StartReading => {
            proof {
                reveal_strlit("start");
            }
            "start"
        },
        LandmarkType::BodyMatter => {
            proof {
                reveal_strlit("text");
            }
            "text"
        },
        LandmarkType::FrontMatter => {
            proof {
                reveal_strlit("preface");
            }
            "preface"
        },
        LandmarkType::BackMatter => {
            proof {
                reveal_strlit("backmatter");
            }
            "backmatter"
        },
        LandmarkType::Acknowledgements => {
            proof {
                reveal_strlit("acknowledgements");
            }
            "acknowledgements"
        },
        LandmarkType::Bibliography => {
            proof {
                reveal_strlit("bibliography");
            }
            "bibliography"
        },
        LandmarkType::Glossary => {
            proof {
                reveal_strlit("glossary");
            }
            "glossary"
        },
        LandmarkType::Index => {
            proof {
                reveal_strlit("index");
            }
            "index"
        },
        LandmarkType::Preface => {
            proof {
                reveal_strlit("preface");
            }
            "preface"
        },
        LandmarkType::Endnotes => {
            proof {
                reveal_strlit("notes");
            }
            "notes"
        },
        LandmarkType::Loi => {
            proof {
                reveal_strlit("loi");
            }
            "loi"
        },
        LandmarkType::Lot => {
            proof {
                reveal_strlit("lot");
            }
            "lot"
        },
    };
    Some(s)
}


/// Guide entries as plain values.
pub open spec fn gviews(s: Seq<GuideBuildEntry>) -> Seq<(Seq<char>, Seq<char>, (u32, u32))> {
    s.map_values(|e: GuideBuildEntry| guide_view(e))
}

/// Entries in strictly increasing order of guide type.
pub open spec fn sorted_by_type(s: Seq<(Seq<char>, Seq<char>, (u32, u32))>) -> bool {
    forall|i: int, j: int| 0 <= i < j < s.len() ==> lex_lt(s[i].0, s[j].0)
}

/// No two entries share a guide type.
pub open spec fn distinct_types(s: Seq<(Seq<char>, Seq<char>, (u32, u32))>) -> bool {
    forall|i: int, j: int| 0 <= i < s.len() && 0 <= j < s.len() && i != j ==> s[i].0 != s[j].0
}

/// One landmark's contribution: the first landmark of each guide type that
/// resolves to a position becomes an entry (titled by its label, or by the
/// type when the label is empty); every landmark marks its type as seen.
pub open spec fn guide_step(
    st: (Seq<(Seq<char>, Seq<char>, (u32, u32))>, Set<Seq<char>>),
    lm: Landmark,
    id_map: PairMap<String>,
    aid_offset_map: StrMap<(usize, usize, usize)>,
) -> (Seq<(Seq<char>, Seq<char>, (u32, u32))>, Set<Seq<char>>) {
    let gt = guide_type_name(lm.landmark_type);
    if st.1.contains(gt) {
        st
    } else {
        let seen = st.1.insert(gt);
        match id_position(id_map, aid_offset_map, href_file(lm.href@), href_fragment(lm.href@)) {
            Some(pos) => (
                st.0.push(
                    (
                        gt,
                        if lm.label@.len() == 0 {
                            gt
                        } else {
                            lm.label@
                        },
                        (pos.0 as u32, pos.1 as u32),
                    ),
                ),
                seen,
            ),
            None => (st.0, seen),
        }
    }
}

/// The entries and seen types after the first `k` landmarks.
pub open spec fn guide_scan(
    lms: Seq<Landmark>,
    id_map: PairMap<String>,
    aid_offset_map: StrMap<(usize, usize, usize)>,
    k: int,
) -> (Seq<(Seq<char>, Seq<char>, (u32, u32))>, Set<Seq<char>>)
    decreases k,
{
    if k <= 0 {
        (Seq::empty(), Set::empty())
    } else {
        guide_step(guide_scan(lms, id_map, aid_offset_map, k - 1), lms[k - 1], id_map, aid_offset_map)
    }
}

/// `v` is the synthesized "start" entry: titled "Beginning", at the aid with
/// the smallest text offset.
pub open spec fn is_start_entry(aid_offset_map: StrMap<(usize, usize, usize)>, v: (Seq<char>, Seq<char>, (u32, u32))) -> bool {
    let e = aid_offset_map.entries@;
    &&& v.0 == start_name()
    &&& v.1 == beginning_name()
    &&& exists|i: int|
        0 <= i < e.len() && (forall|j: int| 0 <= j < e.len() ==> e[i].1.2 <= #[trigger] e[j].1.2) && v.2
            == (e[i].1.0 as u32, e[i].1.1 as u32)
}

proof fn lemma_scan_types(
    lms: Seq<Landmark>,
    id_map: PairMap<String>,
    aid_offset_map: StrMap<(usize, usize, usize)>,
    k: int,
)
    requires
        0 <= k <= lms.len(),
    ensures
        distinct_types(guide_scan(lms, id_map, aid_offset_map, k).0),
        forall|i: int|
            0 <= i < guide_scan(lms, id_map, aid_offset_map, k).0.len() ==> guide_scan(lms, id_map, aid_offset_map, k).1.contains(
                #[trigger] guide_scan(lms, id_map, aid_offset_map, k).0[i].0,
            ),
    decreases k,
{
    if k > 0 {
        lemma_scan_types(lms, id_map, aid_offset_map, k - 1);
    }
}

/// A copy of a guide entry.
fn copy_entry(e: &GuideBuildEntry) -> (r: GuideBuildEntry)
    ensures
        guide_view(r) == guide_view(*e),
{
    GuideBuildEntry { guide_type: e.guide_type.clone(), title: e.title.clone(), pos_fid: e.pos_fid }
}

/// Sort guide entries (of distinct types) by type.
fn sort_by_type(v: Vec<GuideBuildEntry>) -> (r: Vec<GuideBuildEntry>)
    requires
        distinct_types(gviews(v@)),
    ensures
        r@.len() == v@.len(),
        sorted_by_type(gviews(r@)),
        forall|x: (Seq<char>, Seq<char>, (u32, u32))| gviews(r@).contains(x) <==> gviews(v@).contains(x),
{
    let mut out: Vec<GuideBuildEntry> = Vec::new();
    let mut i: usize = 0;
    while i < v.len()
        invariant
            0 <= i <= v@.len(),
            distinct_types(gviews(v@)),
            out@.len() == i,
            sorted_by_type(gviews(out@)),
            forall|x: (Seq<char>, Seq<char>, (u32, u32))| gviews(out@).contains(x) <==> gviews(v@.take(i as int)).contains(x),
        decreases v@.len() - i,
    {
        let e = copy_entry(&v[i]);
        let key = chars_of(e.guide_type.as_str());
        let ghost ev = guide_view(e);
        // first position whose type sorts after the new one
        let mut k: usize = 0;
        let mut done = false;
        while !done && k < out.len()
            invariant
                0 <= k <= out@.len(),
                key@ == ev.0,
                forall|j: int| 0 <= j < k ==> lex_lt((#[trigger] gviews(out@)[j]).0, ev.0) || gviews(out@)[j].0 == ev.0,
                done ==> k < out@.len() && lex_lt(ev.0, gviews(out@)[k as int].0),
            decreases out@.len() - k + (if done { 0int } else { 1int }),
        {
            let other = chars_of(out[k].guide_type.as_str());
            if lex_less(&key, &other) {
                done = true;
            } else {
                proof {
                    if gviews(out@)[k as int].0 != ev.0 {
                        lemma_lex_total(gviews(out@)[k as int].0, ev.0);
                    }
                }
                k = k + 1;
            }
        }
        let ghost before = gviews(out@);
        proof {
            // the new type differs from every type seen so far
            assert forall|j: int| 0 <= j < before.len() implies before[j].0 != ev.0 by {
                let pv = gviews(v@.take(i as int));
                assert(before.contains(before[j]));
                assert(pv.contains(before[j]));
                let t = choose|t: int| 0 <= t < pv.len() && pv[t] == before[j];
                assert(gviews(v@)[t] == before[j]);
                assert(gviews(v@)[i as int] == ev);
            }
        }
        out.insert(k, e);
        proof {
            let after = gviews(out@);
            assert(after == before.insert(k as int, ev));
            assert forall|a: int, b: int| 0 <= a < b < after.len() implies lex_lt(after[a].0, after[b].0) by {
                if b < k {
                } else if b == k {
                    assert(after[a] == before[a]);
                    assert(before[a].0 != ev.0);
                } else if a < k {
                    assert(after[b] == before[b - 1]);
                    assert(lex_lt(before[a].0, ev.0) || before[a].0 == ev.0);
                    assert(before[a].0 != ev.0);
                    if k < before.len() {
                        lemma_lex_trans(before[a].0, ev.0, before[k as int].0);
                        if b - 1 > k {
                            lemma_lex_trans(before[a].0, before[k as int].0, before[b - 1].0);
                        }
                    }
                } else if a == k {
                    assert(after[b] == before[b - 1]);
                    if b - 1 > k {
                        lemma_lex_trans(ev.0, before[k as int].0, before[b - 1].0);
                    }
                } else {
                    assert(after[a] == before[a - 1]);
                    assert(after[b] == before[b - 1]);
                }
            }
            assert(v@.take(i + 1) == v@.take(i as int).push(v@[i as int]));
            assert(gviews(v@.take(i + 1)) == gviews(v@.take(i as int)).push(ev));
            let pv = gviews(v@.take(i as int));
            let nv = gviews(v@.take(i + 1));
            assert(nv == pv.push(ev));
            assert forall|x: (Seq<char>, Seq<char>, (u32, u32))| after.contains(x) <==> nv.contains(x) by {
                if after.contains(x) {
                    let t = choose|t: int| 0 <= t < after.len() && after[t] == x;
                    if t == k {
                        assert(nv[i as int] == x);
                    } else {
                        let u = if t < k { t } else { t - 1 };
                        assert(before[u] == x);
                        assert(before.contains(x));
                        assert(pv.contains(x));
                        let w = choose|w: int| 0 <= w < pv.len() && pv[w] == x;
                        assert(nv[w] == x);
                    }
                }
                if nv.contains(x) {
                    let t = choose|t: int| 0 <= t < nv.len() && nv[t] == x;
                    if t < i {
                        assert(pv[t] == x);
                        assert(pv.contains(x));
                        assert(before.contains(x));
                        let u = choose|u: int| 0 <= u < before.len() && before[u] == x;
                        if u < k {
                            assert(after[u] == x);
                        } else {
                            assert(after[u + 1] == x);
                        }
                    } else {
                        assert(after[k as int] == x);
                    }
                }
            }
        }
        i = i + 1;
    }
    proof {
        assert(v@.take(v@.len() as int) == v@);
    }
    out
}


/// Whether `v` lists the characters `c`.
fn contains_chars(v: &Vec<Vec<char>>, c: &Vec<char>) -> (r: bool)
    ensures
        r == v@.map_values(|x: Vec<char>| x@).contains(c@),
{
    let ghost vs = v@.map_values(|x: Vec<char>| x@);
    let mut i: usize = 0;
    while i < v.len()
        invariant
            0 <= i <= v@.len(),
            vs == v@.map_values(|x: Vec<char>| x@),
            forall|j: int| 0 <= j < i ==> vs[j] != c@,
        decreases v@.len() - i,
    {
        if chars_eq(&v[i], c) {
            proof {
                assert(vs[i as int] == c@);
            }
            return true;
        }
        i = i + 1;
    }
    false
}

/// `r` is the K8 guide of `landmarks`: the entries of the first landmark
/// of each guide type that resolves, sorted by type, and a "start" entry at
/// the smallest text offset when no landmark has that type.
pub open spec fn guide_entries_ok(
    r: Seq<GuideBuildEntry>,
    landmarks: Seq<Landmark>,
    id_map: PairMap<String>,
    aid_offset_map: StrMap<(usize, usize, usize)>,
) -> bool {
    let (es, seen) = guide_scan(landmarks, id_map, aid_offset_map, landmarks.len() as int);
    let start_needed = !seen.contains(start_name()) && aid_offset_map.entries@.len() > 0;
    &&& sorted_by_type(gviews(r))
    &&& r.len() == es.len() + if start_needed {
        1int
    } else {
        0int
    }
    &&& forall|x: (Seq<char>, Seq<char>, (u32, u32))|
        gviews(r).contains(x) ==> (es.contains(x) || (start_needed && is_start_entry(aid_offset_map, x)))
    &&& forall|x: (Seq<char>, Seq<char>, (u32, u32))| es.contains(x) ==> gviews(r).contains(x)
    &&& start_needed ==> exists|x: (Seq<char>, Seq<char>, (u32, u32))|
        is_start_entry(aid_offset_map, x) && gviews(r).contains(x)
}

/// Build K8 guide entries from book landmarks. Each landmark resolves to a
/// (fid, offset) pair through the chunker's `id_map` / `aid_offset_map`; only
/// the first landmark of each guide type counts. When no landmark has the
/// "start" type, a "start" entry titled "Beginning" points at the aid with
/// the smallest text offset (Kindle uses it to decide where to open the
/// book). The entries come sorted by type, as Kindle's binary search of the
/// index requires. `cover_image` is accepted for future cover-page synthesis
/// and not used.
/// The aid-offset table has one entry per aid, as the chunker makes it.
pub fn collect_guide_entries(
    landmarks: &Vec<Landmark>,
    cover_image: Option<&str>,
    id_map: &PairMap<String>,
    aid_offset_map: &StrMap<(usize, usize, usize)>,
) -> (r: Vec<GuideBuildEntry>)
    requires
        aid_offset_map.keys_distinct(),
    ensures
        guide_entries_ok(r@, landmarks@, *id_map, *aid_offset_map),
{
    let ghost lms = landmarks@;
    let mut entries: Vec<GuideBuildEntry> = Vec::new();
    let mut seen_types: Vec<Vec<char>> = Vec::new();
    let mut i: usize = 0;
    while i < landmarks.len()
        invariant
            0 <= i <= landmarks@.len(),
            lms == landmarks@,
            gviews(entries@) == guide_scan(lms, *id_map, *aid_offset_map, i as int).0,
            seen_types@.map_values(|x: Vec<char>| x@).to_set() == guide_scan(lms, *id_map, *aid_offset_map, i as int).1,
        decreases landmarks@.len() - i,
    {
        let landmark = &landmarks[i];
        let guide_type = landmark_to_guide_type(landmark.landmark_type).unwrap();
        let gt = chars_of(guide_type);
        let ghost st = guide_scan(lms, *id_map, *aid_offset_map, i as int);
        let ghost sv = seen_types@.map_values(|x: Vec<char>| x@);
        if contains_chars(&seen_types, &gt) {
            proof {
                assert(sv.to_set().contains(gt@));
            }
        } else {
            proof {
                assert(!st.1.contains(gt@));
            }
            seen_types.push(gt);
            proof {
                assert(seen_types@.map_values(|x: Vec<char>| x@) == sv.push(gt@));
                assert forall|y: Seq<char>| sv.push(gt@).contains(y) <==> (sv.contains(y) || y == gt@) by {
                    if sv.push(gt@).contains(y) {
                        let t = choose|t: int| 0 <= t < sv.push(gt@).len() && sv.push(gt@)[t] == y;
                        if t < sv.len() {
                            assert(sv[t] == y);
                        }
                    }
                    if sv.contains(y) {
                        let t = choose|t: int| 0 <= t < sv.len() && sv[t] == y;
                        assert(sv.push(gt@)[t] == y);
                    }
                    if y == gt@ {
                        assert(sv.push(gt@)[sv.len() as int] == y);
                    }
                }
                assert(sv.push(gt@).to_set() =~= sv.to_set().insert(gt@));
            }
            let (file, fragment) = split_href(landmark.href.as_str());
            let pos = lookup_id_position(id_map, aid_offset_map, file.as_str(), fragment.as_str());
            match pos {
                Some((seq, off_in_chunk, _)) => {
                    let title = if landmark.label.as_str().is_empty() {
                        guide_type.to_owned()
                    } else {
                        landmark.label.clone()
                    };
                    let e = GuideBuildEntry {
                        guide_type: guide_type.to_owned(),
                        title,
                        pos_fid: (seq as u32, off_in_chunk as u32),
                    };
                    let ghost before = entries@;
                    entries.push(e);
                    proof {
                        assert(gviews(entries@) == gviews(before).push(guide_view(e)));
                    }
                },
                None => {},
            }
        }
        i = i + 1;
    }
    let ghost st = guide_scan(lms, *id_map, *aid_offset_map, landmarks@.len() as int);
    let ghost es = st.0;
    proof {
        lemma_scan_types(lms, *id_map, *aid_offset_map, landmarks@.len() as int);
    }
    // Synthesize a "start" entry pointing to the first spine file if none
    // was declared.
    let start_v: Vec<char> = vec!['s', 't', 'a', 'r', 't'];
    proof {
        assert(start_v@ == start_name());
    }
    let has_start = contains_chars(&seen_types, &start_v);
    proof {
        let sv = seen_types@.map_values(|x: Vec<char>| x@);
        if sv.contains(start_name()) {
            assert(sv.to_set().contains(start_name()));
        }
        if st.1.contains(start_name()) {
            assert(sv.to_set().contains(start_name()));
        }
    }
    let ghost start_needed = !st.1.contains(start_name()) && aid_offset_map.entries@.len() > 0;
    if !has_start && aid_offset_map.entries.len() > 0 {
        let ae = &aid_offset_map.entries;
        let mut best: usize = 0;
        let mut j: usize = 1;
        while j < ae.len()
            invariant
                1 <= j <= ae@.len(),
                best < j,
                forall|t: int| 0 <= t < j ==> ae@[best as int].1.2 <= #[trigger] ae@[t].1.2,
            decreases ae@.len() - j,
        {
            if ae[j].1.2 < ae[best].1.2 {
                best = j;
            }
            j = j + 1;
        }
        let (seq, off, _) = ae[best].1;
        let bv: Vec<char> = vec!['B', 'e', 'g', 'i', 'n', 'n', 'i', 'n', 'g'];
        let e = GuideBuildEntry {
            guide_type: crate::text::string_of(&start_v),
            title: crate::text::string_of(&bv),
            pos_fid: (seq as u32, off as u32),
        };
        proof {
            assert(bv@ == beginning_name());
            assert(is_start_entry(*aid_offset_map, guide_view(e)));
        }
        let ghost before = entries@;
        entries.push(e);
        proof {
            assert(gviews(entries@) == gviews(before).push(guide_view(e)));
        }
    }
    proof {
        let ev = gviews(entries@);
        assert forall|a: int, b: int| 0 <= a < ev.len() && 0 <= b < ev.len() && a != b implies ev[a].0 != ev[b].0 by {
            if a < es.len() && b < es.len() {
            } else if a < es.len() {
                assert(st.1.contains(es[a].0));
            } else if b < es.len() {
                assert(st.1.contains(es[b].0));
            }
        }
    }
    let _ = cover_image;
    let ghost ev = gviews(entries@);
    proof {
        assert forall|x: (Seq<char>, Seq<char>, (u32, u32))| ev.contains(x) implies (es.contains(x) || (start_needed && is_start_entry(*aid_offset_map, x))) by {
            let t = choose|t: int| 0 <= t < ev.len() && ev[t] == x;
            if t < es.len() {
                assert(es[t] == x);
            }
        }
        assert forall|x: (Seq<char>, Seq<char>, (u32, u32))| es.contains(x) implies ev.contains(x) by {
            let t = choose|t: int| 0 <= t < es.len() && es[t] == x;
            assert(ev[t] == x);
        }
        if start_needed {
            let x = ev[es.len() as int];
            assert(ev.contains(x));
        }
    }
    let sorted = sort_by_type(entries);
    sorted
}


/// Law: landmarks of different kinds get different guide types, except
/// front matter and a preface, which Kindle both knows as "preface"; so no
/// landmark kind is filed under another kind's guide type.
pub proof fn law_guide_types_distinct(a: LandmarkType, b: LandmarkType)
    requires
        a != b,
        !(a == LandmarkType::FrontMatter && b == LandmarkType::Preface),
        !(a == LandmarkType::Preface && b == LandmarkType::FrontMatter),
    ensures
        guide_type_name(a) != guide_type_name(b),
{
    let x = guide_type_name(a);
    let y = guide_type_name(b);
    if x.len() == y.len() {
        assert(x[0] != y[0] || x[1] != y[1] || x[2] != y[2] || x[x.len() - 1] != y[y.len() - 1]);
    }
}

} // verus!
