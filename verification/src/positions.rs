//! The KFX navigation fragments: the position map (section to the entity
//! ids it contains), the position-id map (character positions to entity
//! ids), the location map, and the container entity map with the
//! dependencies that lead a section to its image data.

use vstd::prelude::*;
use crate::links::ChapterId;
use crate::strmap::StrMap;
use crate::text::{chars_of, string_of, push_char};
use crate::resources::{views, strictly_lex_sorted, no_dups, sort_strings};

verus! {

/// Symbol `id`.
pub const SYM_ID: u64 = 155;
/// Symbol `offset`.
pub const SYM_OFFSET: u64 = 143;
/// Symbol `contains`.
pub const SYM_CONTAINS: u64 = 181;
/// Symbol `section_name`.
pub const SYM_SECTION_NAME: u64 = 174;
/// Symbol `locations`.
pub const SYM_LOCATIONS: u64 = 182;
/// Symbol `pid`.
pub const SYM_PID: u64 = 184;
/// Symbol `eid`.
pub const SYM_EID: u64 = 185;
/// Symbol `container_list`.
pub const SYM_CONTAINER_LIST: u64 = 252;
/// Symbol `entity_dependencies`.
pub const SYM_ENTITY_DEPENDENCIES: u64 = 253;
/// Symbol `mandatory_dependencies`.
pub const SYM_MANDATORY_DEPENDENCIES: u64 = 254;
/// Fragment type `position_map`.
pub const SYM_POSITION_MAP: u64 = 264;
/// Fragment type `position_id_map`.
pub const SYM_POSITION_ID_MAP: u64 = 265;
/// Fragment type `container_entity_map`.
pub const SYM_CONTAINER_ENTITY_MAP: u64 = 419;
/// Fragment type `location_map`.
pub const SYM_LOCATION_MAP: u64 = 550;

/// An Ion value as KFX fragments hold them.
pub enum IonValue {
    Int(i64),
    Symbol(u64),
    String(String),
    List(Vec<IonValue>),
    Struct(Vec<(u64, IonValue)>),
}

/// A KFX fragment: its type, its id, and its value.
pub struct KfxFragment {
    pub ftype: u64,
    pub fid: String,
    pub value: IonValue,
}

/// The decimal digits of `n`.
pub open spec fn decimal(n: nat) -> Seq<char>
    decreases n,
{
    if n < 10 {
        seq![(48 + n) as char]
    } else {
        decimal(n / 10).push((48 + n % 10) as char)
    }
}

/// The decimal numeral of `n`.
pub fn decimal_string(n: u64) -> (r: String)
    ensures
        r@ == decimal(n as nat),
    decreases n,
{
    if n < 10 {
        let mut s = String::new();
        push_char(&mut s, ((48 + n) as u8) as char);
        proof {
            assert(s@ =~= decimal(n as nat));
        }
        s
    } else {
        let mut s = decimal_string(n / 10);
        push_char(&mut s, ((48 + n % 10) as u8) as char);
        s
    }
}

impl KfxFragment {
    /// The singleton fragment of type `ftype`, whose id is the type's
    /// symbol name `$<ftype>`.
    pub fn singleton(ftype: u64, value: IonValue) -> (r: Self)
        ensures
            r.ftype == ftype,
            r.fid@ == seq!['$'] + decimal(ftype as nat),
            r.value == value,
    {
        let mut fid = String::new();
        push_char(&mut fid, '$');
        let digits = chars_of(decimal_string(ftype).as_str());
        let mut i: usize = 0;
        while i < digits.len()
            invariant
                0 <= i <= digits@.len(),
                fid@ == seq!['$'] + digits@.take(i as int),
            decreases digits@.len() - i,
        {
            push_char(&mut fid, digits[i]);
            proof {
                assert(digits@.take(i + 1) == digits@.take(i as int).push(digits@[i as int]));
            }
            i = i + 1;
        }
        proof {
            assert(digits@.take(digits@.len() as int) == digits@);
        }
        KfxFragment { ftype, fid, value }
    }
}

/// The state of a KFX export that the navigation fragments read.
pub struct ExportContext {
    /// Fragment id of the standalone cover section, if any.
    pub cover_fragment_id: Option<u64>,
    /// Content id of the cover's storyline, if any.
    pub cover_content_id: Option<u64>,
    /// Section name symbols, the cover section first when there is one.
    pub section_ids: Vec<u64>,
    /// Each chapter with the fragment id of its page template.
    pub chapter_fragments: Vec<(ChapterId, u64)>,
    /// The content ids of each chapter, in reading order.
    pub content_ids_by_chapter: Vec<(ChapterId, Vec<u64>)>,
    /// The text length of each content id.
    pub content_id_lengths: Vec<(u64, usize)>,
    /// The document symbol table.
    pub symbols: StrMap<u64>,
    /// Each section with the short names of the resources it needs.
    pub section_resource_deps: Vec<(String, Vec<String>)>,
}

/// The value of the first entry with key `k`.
pub open spec fn lookup_id<V>(e: Seq<(ChapterId, V)>, k: ChapterId) -> Option<V>
    decreases e.len(),
{
    if e.len() == 0 {
        None
    } else if e[0].0 == k {
        Some(e[0].1)
    } else {
        lookup_id(e.drop_first(), k)
    }
}

/// The value of the first entry with key `k`.
pub open spec fn lookup_u64<V>(e: Seq<(u64, V)>, k: u64) -> Option<V>
    decreases e.len(),
{
    if e.len() == 0 {
        None
    } else if e[0].0 == k {
        Some(e[0].1)
    } else {
        lookup_u64(e.drop_first(), k)
    }
}

/// The content ids of a chapter (none when it has no entry).
pub open spec fn content_ids(ctx: ExportContext, ch: ChapterId) -> Seq<u64> {
    match lookup_id(ctx.content_ids_by_chapter@, ch) {
        Some(v) => v@,
        None => Seq::empty(),
    }
}

/// The text length counted for a content id: its recorded length, 1 when
/// none is recorded, and at least 1.
pub open spec fn content_len(ctx: ExportContext, eid: u64) -> nat {
    match lookup_u64(ctx.content_id_lengths@, eid) {
        Some(l) => if l >= 1 {
            l as nat
        } else {
            1
        },
        None => 1,
    }
}

/// `s` is `t` reordered by increasing fragment id.
pub open spec fn sorted_by_fid(s: Seq<(ChapterId, u64)>, t: Seq<(ChapterId, u64)>) -> bool {
    &&& forall|i: int, j: int| 0 <= i < j < s.len() ==> s[i].1 <= s[j].1
    &&& exists|p: Seq<int>|
        #![trigger p.len()]
        p.len() == s.len() && s.len() == t.len() && (forall|i: int| 0 <= i < p.len() ==> 0 <= #[trigger] p[i] < t.len()
            && s[i] == t[p[i]]) && (forall|i: int, j: int| 0 <= i < j < p.len() ==> p[i] != p[j])
}

/// The value of the first entry with key `k`.
fn get_by_chapter<'a, V>(e: &'a Vec<(ChapterId, V)>, k: ChapterId) -> (r: Option<&'a V>)
    ensures
        match lookup_id(e@, k) {
            Some(v) => r == Some(&v),
            None => r is None,
        },
{
    let mut i: usize = 0;
    proof {
        assert(e@.skip(0) == e@);
    }
    while i < e.len()
        invariant
            0 <= i <= e@.len(),
            lookup_id(e@, k) == lookup_id(e@.skip(i as int), k),
        decreases e@.len() - i,
    {
        proof {
            assert(e@.skip(i as int)[0] == e@[i as int]);
            assert(e@.skip(i as int).drop_first() == e@.skip(i + 1));
        }
        if e[i].0.0 == k.0 {
            return Some(&e[i].1);
        }
        i = i + 1;
    }
    None
}

/// The value of the first entry with key `k`.
fn get_by_u64<'a, V>(e: &'a Vec<(u64, V)>, k: u64) -> (r: Option<&'a V>)
    ensures
        match lookup_u64(e@, k) {
            Some(v) => r == Some(&v),
            None => r is None,
        },
{
    let mut i: usize = 0;
    proof {
        assert(e@.skip(0) == e@);
    }
    while i < e.len()
        invariant
            0 <= i <= e@.len(),
            lookup_u64(e@, k) == lookup_u64(e@.skip(i as int), k),
        decreases e@.len() - i,
    {
        proof {
            assert(e@.skip(i as int)[0] == e@[i as int]);
            assert(e@.skip(i as int).drop_first() == e@.skip(i + 1));
        }
        if e[i].0 == k {
            return Some(&e[i].1);
        }
        i = i + 1;
    }
    None
}

/// `e` inserted into `s` before the first entry with a larger fragment id
/// (after all entries with an equal or smaller one).
pub open spec fn insert_by_fid(s: Seq<(ChapterId, u64)>, e: (ChapterId, u64)) -> Seq<(ChapterId, u64)>
    decreases s.len(),
{
    if s.len() == 0 {
        seq![e]
    } else if s[0].1 <= e.1 {
        seq![s[0]] + insert_by_fid(s.drop_first(), e)
    } else {
        seq![e] + s
    }
}

/// The chapters `t` sorted by fragment id, stably: chapters with equal
/// fragment ids keep their order in `t`.
pub open spec fn fid_sort(t: Seq<(ChapterId, u64)>) -> Seq<(ChapterId, u64)>
    decreases t.len(),
{
    if t.len() == 0 {
        Seq::empty()
    } else {
        insert_by_fid(fid_sort(t.drop_last()), t.last())
    }
}

/// Inserting before the first entry with a larger fragment id.
proof fn lemma_insert_by_fid(s: Seq<(ChapterId, u64)>, e: (ChapterId, u64), k: int)
    requires
        0 <= k <= s.len(),
        forall|a: int| 0 <= a < k ==> s[a].1 <= e.1,
        k == s.len() || s[k].1 > e.1,
    ensures
        insert_by_fid(s, e) == s.insert(k, e),
    decreases s.len(),
{
    if s.len() > 0 {
        if k > 0 {
            lemma_insert_by_fid(s.drop_first(), e, k - 1);
            assert(seq![s[0]] + s.drop_first().insert(k - 1, e) =~= s.insert(k, e));
        } else {
            assert(seq![e] + s =~= s.insert(0, e));
        }
    } else {
        assert(seq![e] =~= s.insert(0, e));
    }
}

/// The chapters in increasing order of fragment id.
fn chapters_by_fid(ctx: &ExportContext) -> (r: Vec<(ChapterId, u64)>)
    ensures
        sorted_by_fid(r@, ctx.chapter_fragments@),
        r@ == fid_sort(ctx.chapter_fragments@),
{
    let t = &ctx.chapter_fragments;
    let mut out: Vec<(ChapterId, u64)> = Vec::new();
    let ghost mut p: Seq<int> = Seq::empty();
    let mut i: usize = 0;
    while i < t.len()
        invariant
            0 <= i <= t@.len(),
            out@.len() == i,
            p.len() == i,
            forall|a: int, b: int| 0 <= a < b < out@.len() ==> out@[a].1 <= out@[b].1,
            forall|a: int| 0 <= a < p.len() ==> 0 <= #[trigger] p[a] < i && out@[a] == t@[p[a]],
            forall|a: int, b: int| 0 <= a < b < p.len() ==> p[a] != p[b],
            out@ == fid_sort(t@.take(i as int)),
        decreases t@.len() - i,
    {
        let e = t[i];
        let mut k: usize = 0;
        while k < out.len() && out[k].1 <= e.1
            invariant
                0 <= k <= out@.len(),
                forall|a: int| 0 <= a < k ==> out@[a].1 <= e.1,
            decreases out@.len() - k,
        {
            k = k + 1;
        }
        let ghost before = out@;
        let ghost pb = p;
        out.insert(k, e);
        proof {
            lemma_insert_by_fid(before, e, k as int);
            assert(t@.take(i + 1).drop_last() == t@.take(i as int));
            assert(t@.take(i + 1).last() == e);
            p = pb.insert(k as int, i as int);
            assert forall|a: int, b: int| 0 <= a < b < out@.len() implies out@[a].1 <= out@[b].1 by {
                if b < k {
                } else if b == k {
                } else if a < k {
                    assert(out@[b] == before[b - 1]);
                } else if a == k {
                    assert(out@[b] == before[b - 1]);
                } else {
                    assert(out@[a] == before[a - 1]);
                    assert(out@[b] == before[b - 1]);
                }
            }
            assert forall|a: int| 0 <= a < p.len() implies 0 <= #[trigger] p[a] < i + 1 && out@[a] == t@[p[a]] by {
                if a < k {
                    assert(p[a] == pb[a]);
                } else if a > k {
                    assert(p[a] == pb[a - 1]);
                    assert(out@[a] == before[a - 1]);
                }
            }
            assert forall|a: int, b: int| 0 <= a < b < p.len() implies p[a] != p[b] by {
                if a < k && b < k {
                } else if a < k && b == k {
                    assert(p[a] == pb[a]);
                } else if a < k {
                    assert(p[a] == pb[a]);
                    assert(p[b] == pb[b - 1]);
                } else if a == k {
                    assert(p[b] == pb[b - 1]);
                } else {
                    assert(p[a] == pb[a - 1]);
                    assert(p[b] == pb[b - 1]);
                }
            }
        }
        i = i + 1;
    }
    proof {
        assert(t@.take(t@.len() as int) == t@);
        assert(p.len() == out@.len() && out@.len() == t@.len() && (forall|a: int| 0 <= a < p.len() ==> 0 <= #[trigger] p[a] < t@.len() && out@[a] == t@[p[a]]) && (forall|a: int, b: int| 0 <= a < b < p.len() ==> p[a] != p[b]));
    }
    out
}

/// `v` is a list of the integers `xs`.
pub open spec fn ints_list(v: IonValue, xs: Seq<u64>) -> bool {
    v matches IonValue::List(l) && l@.len() == xs.len() && forall|i: int|
        0 <= i < xs.len() ==> #[trigger] l@[i] == IonValue::Int(xs[i] as i64)
}

/// A position map entry: the entity ids a section contains, and its name.
pub open spec fn pm_entry(v: IonValue, ids: Seq<u64>, section: u64) -> bool {
    v matches IonValue::Struct(f) && f@.len() == 2 && f@[0].0 == SYM_CONTAINS && ints_list(f@[0].1, ids)
        && f@[1] == (SYM_SECTION_NAME, IonValue::Symbol(section))
}

/// The position map rows: (entity ids, section name) for the cover section
/// (its template, then its storyline) and then for each section paired with
/// the chapter of the same rank in `sorted` (its page template, then its
/// content ids).
pub open spec fn pm_rows(ctx: ExportContext, sorted: Seq<(ChapterId, u64)>) -> Seq<(Seq<u64>, u64)> {
    let cover: Seq<(Seq<u64>, u64)> = match ctx.cover_fragment_id {
        Some(c) => seq![
            (
                seq![c] + match ctx.cover_content_id {
                    Some(x) => seq![x],
                    None => Seq::empty(),
                },
                ctx.section_ids@[0],
            ),
        ],
        None => Seq::empty(),
    };
    let secs = if ctx.cover_fragment_id is Some {
        ctx.section_ids@.skip(1)
    } else {
        ctx.section_ids@
    };
    let n = if secs.len() < sorted.len() {
        secs.len()
    } else {
        sorted.len()
    };
    cover + Seq::new(n, |k: int| (seq![sorted[k].1] + content_ids(ctx, sorted[k].0), secs[k]))
}

/// The integers as an Ion list.
fn int_list(xs: &Vec<u64>) -> (r: IonValue)
    ensures
        ints_list(r, xs@),
{
    let mut l: Vec<IonValue> = Vec::new();
    let mut i: usize = 0;
    while i < xs.len()
        invariant
            0 <= i <= xs@.len(),
            l@.len() == i,
            forall|k: int| 0 <= k < i ==> #[trigger] l@[k] == IonValue::Int(xs@[k] as i64),
        decreases xs@.len() - i,
    {
        l.push(IonValue::Int(#[verifier::truncate] (xs[i] as i64)));
        i = i + 1;
    }
    IonValue::List(l)
}

/// A position map entry.
fn make_pm_entry(ids: &Vec<u64>, section: u64) -> (r: IonValue)
    ensures
        pm_entry(r, ids@, section),
{
    let list = int_list(ids);
    let f: Vec<(u64, IonValue)> = vec![(SYM_CONTAINS, list), (SYM_SECTION_NAME, IonValue::Symbol(section))];
    IonValue::Struct(f)
}

/// The position map rows, for a given order of the chapters.
fn position_map_entries(ctx: &ExportContext, sorted: &Vec<(ChapterId, u64)>) -> (r: Vec<IonValue>)
    requires
        ctx.cover_fragment_id is Some ==> ctx.section_ids@.len() > 0,
    ensures
        r@.len() == pm_rows(*ctx, sorted@).len(),
        forall|i: int|
            0 <= i < r@.len() ==> pm_entry(#[trigger] r@[i], pm_rows(*ctx, sorted@)[i].0, pm_rows(*ctx, sorted@)[i].1),
{
    let ghost rows = pm_rows(*ctx, sorted@);
    let mut entries: Vec<IonValue> = Vec::new();
    let offset: usize = match ctx.cover_fragment_id {
        Some(c) => {
            let mut ids: Vec<u64> = vec![c];
            match ctx.cover_content_id {
                Some(x) => ids.push(x),
                None => {},
            }
            proof {
                assert(ids@ =~= rows[0].0);
            }
            entries.push(make_pm_entry(&ids, ctx.section_ids[0]));
            1
        },
        None => 0,
    };
    let ghost base = entries@.len();
    let ghost secs = ctx.section_ids@.skip(offset as int);
    let mut idx: usize = 0;
    while idx < ctx.section_ids.len() - offset && idx < sorted.len()
        invariant
            offset <= ctx.section_ids@.len(),
            offset == (if ctx.cover_fragment_id is Some { 1int } else { 0int }),
            base == offset,
            secs == ctx.section_ids@.skip(offset as int),
            rows == pm_rows(*ctx, sorted@),
            0 <= idx <= sorted@.len(),
            idx <= secs.len(),
            entries@.len() == base + idx,
            forall|i: int| 0 <= i < entries@.len() ==> pm_entry(#[trigger] entries@[i], rows[i].0, rows[i].1),
        decreases sorted@.len() - idx,
    {
        let (ch, fid) = sorted[idx];
        let mut ids: Vec<u64> = vec![fid];
        match get_by_chapter(&ctx.content_ids_by_chapter, ch) {
            Some(cs) => {
                let mut j: usize = 0;
                while j < cs.len()
                    invariant
                        0 <= j <= cs@.len(),
                        ids@ == seq![fid] + cs@.take(j as int),
                    decreases cs@.len() - j,
                {
                    ids.push(cs[j]);
                    proof {
                        assert(cs@.take(j + 1) == cs@.take(j as int).push(cs@[j as int]));
                    }
                    j = j + 1;
                }
                proof {
                    assert(cs@.take(cs@.len() as int) == cs@);
                }
            },
            None => {},
        }
        proof {
            assert(ids@ =~= rows[base + idx].0);
            assert(secs[idx as int] == ctx.section_ids@[offset + idx]);
        }
        entries.push(make_pm_entry(&ids, ctx.section_ids[offset + idx]));
        idx = idx + 1;
    }
    entries
}

/// The position map fragment of a given chapter order.
pub open spec fn position_map_ok(ctx: ExportContext, sorted: Seq<(ChapterId, u64)>, f: KfxFragment) -> bool {
    &&& f.ftype == SYM_POSITION_MAP
    &&& f.fid@ == seq!['$'] + decimal(SYM_POSITION_MAP as nat)
    &&& f.value matches IonValue::List(l) && l@.len() == pm_rows(ctx, sorted).len() && forall|i: int|
        0 <= i < l@.len() ==> pm_entry(#[trigger] l@[i], pm_rows(ctx, sorted)[i].0, pm_rows(ctx, sorted)[i].1)
}

/// Build the position map fragment: for each section, the entity ids it
/// contains. A standalone cover section comes first (its template and its
/// storyline); then each further section, with the chapters in increasing
/// order of fragment id, lists its chapter's page template and content ids.
pub fn build_position_map_fragment(ctx: &ExportContext) -> (r: KfxFragment)
    requires
        ctx.cover_fragment_id is Some ==> ctx.section_ids@.len() > 0,
    ensures
        sorted_by_fid(fid_sort(ctx.chapter_fragments@), ctx.chapter_fragments@),
        position_map_ok(*ctx, fid_sort(ctx.chapter_fragments@), r),
{
    let sorted = chapters_by_fid(ctx);
    let entries = position_map_entries(ctx, &sorted);
    let r = KfxFragment::singleton(SYM_POSITION_MAP, IonValue::List(entries));
    proof {
    }
    r
}


/// The content ids of the chapters in `sorted`, chapter after chapter.
pub open spec fn chapter_eids(ctx: ExportContext, sorted: Seq<(ChapterId, u64)>) -> Seq<u64>
    decreases sorted.len(),
{
    if sorted.len() == 0 {
        Seq::empty()
    } else {
        chapter_eids(ctx, sorted.drop_last()) + content_ids(ctx, sorted.last().0)
    }
}

/// The content ids in reading order: the cover storyline first, then the
/// chapters in the order `sorted`.
pub open spec fn all_eids(ctx: ExportContext, sorted: Seq<(ChapterId, u64)>) -> Seq<u64> {
    match ctx.cover_content_id {
        Some(c) => seq![c] + chapter_eids(ctx, sorted),
        None => chapter_eids(ctx, sorted),
    }
}

/// The position (character offset) of the `k`-th content id: the lengths of
/// those before it, added up.
pub open spec fn pid_before(ctx: ExportContext, es: Seq<u64>, k: int) -> nat
    decreases k,
{
    if k <= 0 {
        0
    } else {
        pid_before(ctx, es, k - 1) + content_len(ctx, es[k - 1])
    }
}

/// A position-id map entry: entity id, then position.
pub open spec fn pid_entry(v: IonValue, eid: u64, pid: int) -> bool {
    v matches IonValue::Struct(f) && f@ == seq![(SYM_EID, IonValue::Int(eid as i64)), (SYM_PID, IonValue::Int(pid as i64))]
}

/// A location map entry: the content id at offset 0.
pub open spec fn location_entry(v: IonValue, eid: u64) -> bool {
    v matches IonValue::Struct(f) && f@ == seq![(SYM_ID, IonValue::Int(eid as i64)), (SYM_OFFSET, IonValue::Int(0))]
}

/// The content ids in reading order, for a chapter order.
fn eid_order(ctx: &ExportContext, sorted: &Vec<(ChapterId, u64)>) -> (r: Vec<u64>)
    ensures
        r@ == all_eids(*ctx, sorted@),
{
    let mut es: Vec<u64> = Vec::new();
    match ctx.cover_content_id {
        Some(c) => es.push(c),
        None => {},
    }
    let ghost head = es@;
    let mut i: usize = 0;
    while i < sorted.len()
        invariant
            0 <= i <= sorted@.len(),
            es@ == head + chapter_eids(*ctx, sorted@.take(i as int)),
        decreases sorted@.len() - i,
    {
        proof {
            assert(sorted@.take(i + 1).drop_last() == sorted@.take(i as int));
            assert(sorted@.take(i + 1).last() == sorted@[i as int]);
        }
        let ghost before = es@;
        match get_by_chapter(&ctx.content_ids_by_chapter, sorted[i].0) {
            Some(cs) => {
                let mut j: usize = 0;
                while j < cs.len()
                    invariant
                        0 <= j <= cs@.len(),
                        es@ == before + cs@.take(j as int),
                    decreases cs@.len() - j,
                {
                    es.push(cs[j]);
                    proof {
                        assert(cs@.take(j + 1) == cs@.take(j as int).push(cs@[j as int]));
                    }
                    j = j + 1;
                }
                proof {
                    assert(cs@.take(cs@.len() as int) == cs@);
                }
            },
            None => {},
        }
        proof {
            assert(es@ =~= head + chapter_eids(*ctx, sorted@.take(i + 1)));
        }
        i = i + 1;
    }
    proof {
        assert(sorted@.take(sorted@.len() as int) == sorted@);
        assert(es@ =~= all_eids(*ctx, sorted@));
    }
    es
}

/// The position-id map fragment of a given chapter order.
pub open spec fn position_id_map_ok(ctx: ExportContext, sorted: Seq<(ChapterId, u64)>, f: KfxFragment) -> bool {
    let es = all_eids(ctx, sorted);
    &&& f.ftype == SYM_POSITION_ID_MAP
    &&& f.fid@ == seq!['$'] + decimal(SYM_POSITION_ID_MAP as nat)
    &&& f.value matches IonValue::List(l) && l@.len() == es.len() + 1 && (forall|k: int|
        0 <= k < es.len() ==> pid_entry(#[trigger] l@[k], es[k], pid_before(ctx, es, k) as int)) && pid_entry(
        l@[es.len() as int],
        0,
        pid_before(ctx, es, es.len() as int) as int,
    )
}

/// The positions grow with the number of content ids counted.
proof fn lemma_pid_mono(ctx: ExportContext, es: Seq<u64>, a: int, b: int)
    requires
        0 <= a <= b,
    ensures
        pid_before(ctx, es, a) <= pid_before(ctx, es, b),
    decreases b - a,
{
    if a < b {
        lemma_pid_mono(ctx, es, a, b - 1);
    }
}

/// The sum of a sequence of lengths.
pub open spec fn wsum(w: Seq<nat>) -> nat
    decreases w.len(),
{
    if w.len() == 0 {
        0
    } else {
        wsum(w.drop_last()) + w.last()
    }
}

/// The text length of the content ids of each chapter.
pub open spec fn chapter_weights(ctx: ExportContext, chs: Seq<(ChapterId, u64)>) -> Seq<nat> {
    chs.map_values(|c: (ChapterId, u64)| pid_before(ctx, content_ids(ctx, c.0), content_ids(ctx, c.0).len() as int))
}

/// The text length of all content: the cover storyline and every chapter's
/// content ids.
pub open spec fn total_content_len(ctx: ExportContext) -> nat {
    (match ctx.cover_content_id {
        Some(c) => content_len(ctx, c),
        None => 0,
    }) + wsum(chapter_weights(ctx, ctx.chapter_fragments@))
}

/// Removing one length from a sum.
proof fn lemma_wsum_remove(w: Seq<nat>, k: int)
    requires
        0 <= k < w.len(),
    ensures
        wsum(w) == wsum(w.remove(k)) + w[k],
    decreases w.len(),
{
    if k == w.len() - 1 {
        assert(w.remove(k) =~= w.drop_last());
    } else {
        assert(w.remove(k).drop_last() =~= w.drop_last().remove(k));
        assert(w.remove(k).last() == w.last());
        lemma_wsum_remove(w.drop_last(), k);
    }
}

/// Sums do not depend on the order of the lengths.
proof fn lemma_wsum_perm(a: Seq<nat>, b: Seq<nat>, p: Seq<int>)
    requires
        a.len() == b.len(),
        p.len() == a.len(),
        forall|i: int| 0 <= i < p.len() ==> 0 <= #[trigger] p[i] < b.len() && a[i] == b[p[i]],
        forall|i: int, j: int| 0 <= i < j < p.len() ==> p[i] != p[j],
    ensures
        wsum(a) == wsum(b),
    decreases a.len(),
{
    if a.len() > 0 {
        let n = a.len() - 1;
        let k = p[n];
        let b2 = b.remove(k);
        let p2 = Seq::new(n as nat, |i: int| if p[i] < k { p[i] } else { p[i] - 1 });
        assert forall|i: int| 0 <= i < p2.len() implies 0 <= #[trigger] p2[i] < b2.len() && a.drop_last()[i]
            == b2[p2[i]] by {
            assert(p[i] != k);
        }
        assert forall|i: int, j: int| 0 <= i < j < p2.len() implies p2[i] != p2[j] by {
            assert(p[i] != k);
            assert(p[j] != k);
            assert(p[i] != p[j]);
        }
        lemma_wsum_perm(a.drop_last(), b2, p2);
        lemma_wsum_remove(b, k);
    }
}

/// The length of content ids laid end to end.
proof fn lemma_pid_concat(ctx: ExportContext, x: Seq<u64>, y: Seq<u64>)
    ensures
        pid_before(ctx, x + y, (x + y).len() as int) == pid_before(ctx, x, x.len() as int) + pid_before(
            ctx,
            y,
            y.len() as int,
        ),
    decreases y.len(),
{
    assert forall|k: int| 0 <= k <= x.len() implies pid_before(ctx, x + y, k) == pid_before(ctx, x, k) by {
        lemma_pid_prefix(ctx, x + y, x, k);
    }
    if y.len() > 0 {
        let y2 = y.drop_last();
        lemma_pid_concat(ctx, x, y2);
        assert((x + y).drop_last() == x + y2);
        lemma_pid_prefix(ctx, x + y, x + y2, (x + y2).len() as int);
        lemma_pid_prefix(ctx, y, y2, y2.len() as int);
        assert((x + y)[(x + y).len() - 1] == y.last());
    } else {
        assert(x + y =~= x);
    }
}

/// Positions only read the content ids before them.
proof fn lemma_pid_prefix(ctx: ExportContext, a: Seq<u64>, b: Seq<u64>, k: int)
    requires
        0 <= k <= a.len(),
        k <= b.len(),
        forall|i: int| 0 <= i < k ==> a[i] == b[i],
    ensures
        pid_before(ctx, a, k) == pid_before(ctx, b, k),
    decreases k,
{
    if k > 0 {
        lemma_pid_prefix(ctx, a, b, k - 1);
    }
}

/// The chapters' content, laid end to end, is as long as their weights.
proof fn lemma_chapter_eids_len(ctx: ExportContext, chs: Seq<(ChapterId, u64)>)
    ensures
        pid_before(ctx, chapter_eids(ctx, chs), chapter_eids(ctx, chs).len() as int) == wsum(
            chapter_weights(ctx, chs),
        ),
    decreases chs.len(),
{
    if chs.len() > 0 {
        let prev = chs.drop_last();
        lemma_chapter_eids_len(ctx, prev);
        lemma_pid_concat(ctx, chapter_eids(ctx, prev), content_ids(ctx, chs.last().0));
        assert(chapter_weights(ctx, chs).drop_last() =~= chapter_weights(ctx, prev));
    }
}

/// Law: whatever the order of the chapters, the position-id map ends at the
/// text length of all content (the cover storyline and every chapter).
pub proof fn law_total_position(ctx: ExportContext, sorted: Seq<(ChapterId, u64)>)
    requires
        sorted_by_fid(sorted, ctx.chapter_fragments@),
    ensures
        pid_before(ctx, all_eids(ctx, sorted), all_eids(ctx, sorted).len() as int) == total_content_len(ctx),
{
    let t = ctx.chapter_fragments@;
    let p = choose|p: Seq<int>|
        #![trigger p.len()]
        p.len() == sorted.len() && sorted.len() == t.len() && (forall|i: int|
            0 <= i < p.len() ==> 0 <= #[trigger] p[i] < t.len() && sorted[i] == t[p[i]]) && (forall|i: int, j: int|
            0 <= i < j < p.len() ==> p[i] != p[j]);
    lemma_wsum_perm(chapter_weights(ctx, sorted), chapter_weights(ctx, t), p);
    lemma_chapter_eids_len(ctx, sorted);
    match ctx.cover_content_id {
        Some(c) => {
            lemma_pid_concat(ctx, seq![c], chapter_eids(ctx, sorted));
            assert(pid_before(ctx, seq![c], 0) == 0);
            assert(pid_before(ctx, seq![c], 1) == content_len(ctx, c));
        },
        None => {},
    }
}

/// Build the position-id map fragment: each content id (the cover
/// storyline first, then the chapters' content in increasing order of
/// fragment id) with its character position, the running total of the
/// lengths before it (each at least 1), and a closing entry with id 0 at the
/// total.
pub fn build_position_id_map_fragment(ctx: &ExportContext) -> (r: KfxFragment)
    requires
        total_content_len(*ctx) <= i64::MAX,
    ensures
        sorted_by_fid(fid_sort(ctx.chapter_fragments@), ctx.chapter_fragments@),
        position_id_map_ok(*ctx, fid_sort(ctx.chapter_fragments@), r),
{
    let sorted = chapters_by_fid(ctx);
    let es = eid_order(ctx, &sorted);
    let ghost n = es@.len() as int;
    proof {
        law_total_position(*ctx, sorted@);
        assert(pid_before(*ctx, es@, n) <= i64::MAX);
    }
    let mut entries: Vec<IonValue> = Vec::new();
    let mut pid: i64 = 0;
    let mut k: usize = 0;
    while k < es.len()
        invariant
            0 <= k <= es@.len(),
            n == es@.len(),
            pid_before(*ctx, es@, n) <= i64::MAX,
            pid == pid_before(*ctx, es@, k as int),
            entries@.len() == k,
            forall|j: int| 0 <= j < k ==> pid_entry(#[trigger] entries@[j], es@[j], pid_before(*ctx, es@, j) as int),
        decreases es@.len() - k,
    {
        let eid = es[k];
        let len: usize = match get_by_u64(&ctx.content_id_lengths, eid) {
            Some(l) => if *l >= 1 {
                *l
            } else {
                1
            },
            None => 1,
        };
        proof {
            lemma_pid_mono(*ctx, es@, k + 1, n);
        }
        let f: Vec<(u64, IonValue)> = vec![(SYM_EID, IonValue::Int(#[verifier::truncate] (eid as i64))), (SYM_PID, IonValue::Int(pid))];
        proof {
            assert(f@ =~= seq![(SYM_EID, IonValue::Int(eid as i64)), (SYM_PID, IonValue::Int(pid as i64))]);
        }
        entries.push(IonValue::Struct(f));
        pid = pid + len as i64;
        k = k + 1;
    }
    let f: Vec<(u64, IonValue)> = vec![(SYM_EID, IonValue::Int(0)), (SYM_PID, IonValue::Int(pid))];
    proof {
        assert(f@ =~= seq![(SYM_EID, IonValue::Int(0u64 as i64)), (SYM_PID, IonValue::Int(pid as i64))]);
    }
    entries.push(IonValue::Struct(f));
    let r = KfxFragment::singleton(SYM_POSITION_ID_MAP, IonValue::List(entries));
    proof {
    }
    r
}

/// The location map fragment of a given chapter order.
pub open spec fn location_map_ok(ctx: ExportContext, sorted: Seq<(ChapterId, u64)>, f: KfxFragment) -> bool {
    let es = all_eids(ctx, sorted);
    &&& f.ftype == SYM_LOCATION_MAP
    &&& f.fid@ == seq!['$'] + decimal(SYM_LOCATION_MAP as nat)
    &&& f.value matches IonValue::List(outer) && outer@.len() == 1 && locations_struct(outer@[0], es)
}

/// The list of locations of the content ids `es`.
pub open spec fn locations_list(v: IonValue, es: Seq<u64>) -> bool {
    v matches IonValue::List(l) && l@.len() == es.len() && forall|k: int|
        0 <= k < es.len() ==> location_entry(#[trigger] l@[k], es[k])
}

/// The `locations` struct of the content ids `es`.
pub open spec fn locations_struct(v: IonValue, es: Seq<u64>) -> bool {
    v matches IonValue::Struct(fs) && fs@.len() == 1 && fs@[0].0 == SYM_LOCATIONS && locations_list(fs@[0].1, es)
}

/// Build the location map fragment: one location at offset 0 for each
/// content id, the cover storyline first, then the chapters' content in
/// increasing order of fragment id.
pub fn build_location_map_fragment(ctx: &ExportContext) -> (r: KfxFragment)
    ensures
        sorted_by_fid(fid_sort(ctx.chapter_fragments@), ctx.chapter_fragments@),
        location_map_ok(*ctx, fid_sort(ctx.chapter_fragments@), r),
{
    let sorted = chapters_by_fid(ctx);
    let es = eid_order(ctx, &sorted);
    let mut locs: Vec<IonValue> = Vec::new();
    let mut k: usize = 0;
    while k < es.len()
        invariant
            0 <= k <= es@.len(),
            locs@.len() == k,
            forall|j: int| 0 <= j < k ==> location_entry(#[trigger] locs@[j], es@[j]),
        decreases es@.len() - k,
    {
        let f: Vec<(u64, IonValue)> = vec![(SYM_ID, IonValue::Int(#[verifier::truncate] (es[k] as i64))), (SYM_OFFSET, IonValue::Int(0))];
        proof {
            assert(f@ =~= seq![(SYM_ID, IonValue::Int(es@[k as int] as i64)), (SYM_OFFSET, IonValue::Int(0))]);
        }
        locs.push(IonValue::Struct(f));
        k = k + 1;
    }
    let inner: Vec<(u64, IonValue)> = vec![(SYM_LOCATIONS, IonValue::List(locs))];
    let outer: Vec<IonValue> = vec![IonValue::Struct(inner)];
    let r = KfxFragment::singleton(SYM_LOCATION_MAP, IonValue::List(outer));
    proof {
    }
    r
}


/// The symbol id of a name.
pub open spec fn sym_of(ctx: ExportContext, name: Seq<char>) -> Option<u64> {
    ctx.symbols.lookup(name)
}

/// The name is that of a singleton fragment (`$...`).
pub open spec fn dollar_name(n: Seq<char>) -> bool {
    n.len() > 0 && n[0] == '$'
}

/// The entity name symbols of the fragments: those not named `$...` whose
/// name has a symbol.
pub open spec fn entity_syms(ctx: ExportContext, frags: Seq<KfxFragment>) -> Seq<u64>
    decreases frags.len(),
{
    if frags.len() == 0 {
        Seq::empty()
    } else {
        entity_syms(ctx, frags.drop_last()) + if dollar_name(frags.last().fid@) {
            Seq::empty()
        } else {
            match sym_of(ctx, frags.last().fid@) {
                Some(s) => seq![s],
                None => Seq::empty(),
            }
        }
    }
}

/// The symbols of those names that have one.
pub open spec fn known_syms(ctx: ExportContext, names: Seq<String>) -> Seq<u64>
    decreases names.len(),
{
    if names.len() == 0 {
        Seq::empty()
    } else {
        known_syms(ctx, names.drop_last()) + match sym_of(ctx, names.last()@) {
            Some(s) => seq![s],
            None => Seq::empty(),
        }
    }
}

/// The section dependencies: each section with resources, a symbol, and at
/// least one resource with a symbol, with those resource symbols.
pub open spec fn section_deps(ctx: ExportContext, deps: Seq<(String, Vec<String>)>) -> Seq<(u64, Seq<u64>)>
    decreases deps.len(),
{
    if deps.len() == 0 {
        Seq::empty()
    } else {
        let sec = deps.last().0;
        let shorts = deps.last().1;
        section_deps(ctx, deps.drop_last()) + if shorts@.len() == 0 {
            Seq::empty()
        } else {
            match sym_of(ctx, sec@) {
                None => Seq::empty(),
                Some(ss) => {
                    let d = known_syms(ctx, shorts@);
                    if d.len() == 0 {
                        Seq::empty()
                    } else {
                        seq![(ss, d)]
                    }
                },
            }
        }
    }
}

/// The characters `resource/`.
pub open spec fn resource_prefix() -> Seq<char> {
    seq!['r', 'e', 's', 'o', 'u', 'r', 'c', 'e', '/']
}

/// The raw media dependencies: each resource short name (in the order of
/// `names`) whose name and `resource/<name>` both have symbols.
pub open spec fn resource_deps(ctx: ExportContext, names: Seq<Seq<char>>) -> Seq<(u64, Seq<u64>)>
    decreases names.len(),
{
    if names.len() == 0 {
        Seq::empty()
    } else {
        let n = names.last();
        resource_deps(ctx, names.drop_last()) + match sym_of(ctx, n) {
            None => Seq::empty(),
            Some(rs) => match sym_of(ctx, resource_prefix() + n) {
                None => Seq::empty(),
                Some(raw) => seq![(rs, seq![raw])],
            },
        }
    }
}

/// `k` is the short name of a resource that some section needs.
pub open spec fn needed_short_name(ctx: ExportContext, k: Seq<char>) -> bool {
    exists|i: int, j: int|
        0 <= i < ctx.section_resource_deps@.len() && 0 <= j < ctx.section_resource_deps@[i].1@.len()
            && (#[trigger] ctx.section_resource_deps@[i].1@[j])@ == k
}

/// `v` is a list of the symbols `xs`.
pub open spec fn syms_list(v: IonValue, xs: Seq<u64>) -> bool {
    v matches IonValue::List(l) && l@.len() == xs.len() && forall|i: int|
        0 <= i < xs.len() ==> #[trigger] l@[i] == IonValue::Symbol(xs[i])
}

/// A dependency entry: an entity and the symbols it needs.
pub open spec fn dep_entry(v: IonValue, id: u64, ds: Seq<u64>) -> bool {
    v matches IonValue::Struct(f) && f@.len() == 2 && f@[0] == (SYM_ID, IonValue::Symbol(id)) && f@[1].0
        == SYM_MANDATORY_DEPENDENCIES && syms_list(f@[1].1, ds)
}

/// A list of dependency entries.
pub open spec fn deps_list(v: IonValue, rows: Seq<(u64, Seq<u64>)>) -> bool {
    v matches IonValue::List(l) && l@.len() == rows.len() && forall|i: int|
        0 <= i < rows.len() ==> dep_entry(#[trigger] l@[i], rows[i].0, rows[i].1)
}

/// The container entry: its id and the entity names it contains.
pub open spec fn container_entry(v: IonValue, container_id: Seq<char>, names: Seq<u64>) -> bool {
    v matches IonValue::Struct(f) && f@.len() == 2 && f@[0].0 == SYM_ID && (f@[0].1 matches IonValue::String(
        s,
    ) && s@ == container_id) && f@[1].0 == SYM_CONTAINS && syms_list(f@[1].1, names)
}

/// The container list with its one container.
pub open spec fn container_list(v: IonValue, container_id: Seq<char>, names: Seq<u64>) -> bool {
    v matches IonValue::List(l) && l@.len() == 1 && container_entry(l@[0], container_id, names)
}

/// The container entity map fragment, for the sorted short names `names`.
pub open spec fn container_map_ok(
    ctx: ExportContext,
    container_id: Seq<char>,
    frags: Seq<KfxFragment>,
    names: Seq<Seq<char>>,
    f: KfxFragment,
) -> bool {
    let rows = section_deps(ctx, ctx.section_resource_deps@) + resource_deps(ctx, names);
    &&& f.ftype == SYM_CONTAINER_ENTITY_MAP
    &&& f.fid@ == seq!['$'] + decimal(SYM_CONTAINER_ENTITY_MAP as nat)
    &&& f.value matches IonValue::Struct(fs) && fs@.len() == (if rows.len() == 0 { 1int } else { 2int })
        && fs@[0].0 == SYM_CONTAINER_LIST && container_list(fs@[0].1, container_id, entity_syms(ctx, frags))
        && (rows.len() > 0 ==> fs@[1].0 == SYM_ENTITY_DEPENDENCIES && deps_list(fs@[1].1, rows))
}

/// The symbols of the names that have one, as Ion symbols.
fn known_sym_values(ctx: &ExportContext, names: &Vec<String>) -> (r: Vec<IonValue>)
    ensures
        syms_list(IonValue::List(r), known_syms(*ctx, names@)),
{
    let mut out: Vec<IonValue> = Vec::new();
    let ghost mut xs: Seq<u64> = Seq::empty();
    let mut i: usize = 0;
    while i < names.len()
        invariant
            0 <= i <= names@.len(),
            xs == known_syms(*ctx, names@.take(i as int)),
            out@.len() == xs.len(),
            forall|k: int| 0 <= k < xs.len() ==> #[trigger] out@[k] == IonValue::Symbol(xs[k]),
        decreases names@.len() - i,
    {
        proof {
            assert(names@.take(i + 1).drop_last() == names@.take(i as int));
            assert(names@.take(i + 1).last() == names@[i as int]);
        }
        match ctx.symbols.get(names[i].as_str()) {
            Some(sym) => {
                out.push(IonValue::Symbol(*sym));
                proof {
                    xs = xs.push(*sym);
                }
            },
            None => {},
        }
        proof {
            assert(xs =~= known_syms(*ctx, names@.take(i + 1)));
        }
        i = i + 1;
    }
    proof {
        assert(names@.take(names@.len() as int) == names@);
    }
    out
}

/// A dependency entry.
fn make_dep(id: u64, deps: Vec<IonValue>, Ghost(ds): Ghost<Seq<u64>>) -> (r: IonValue)
    requires
        syms_list(IonValue::List(deps), ds),
    ensures
        dep_entry(r, id, ds),
{
    let f: Vec<(u64, IonValue)> = vec![(SYM_ID, IonValue::Symbol(id)), (SYM_MANDATORY_DEPENDENCIES, IonValue::List(deps))];
    IonValue::Struct(f)
}

/// Whether `s` is among the strings `v`.
fn contains_string(v: &Vec<String>, s: &String) -> (r: bool)
    ensures
        r == views(v@).contains(s@),
{
    let mut i: usize = 0;
    while i < v.len()
        invariant
            0 <= i <= v@.len(),
            forall|j: int| 0 <= j < i ==> views(v@)[j] != s@,
        decreases v@.len() - i,
    {
        if v[i] == *s {
            proof {
                assert(views(v@)[i as int] == s@);
            }
            return true;
        }
        i = i + 1;
    }
    false
}

/// The strings of `v`, each once, in order of first occurrence.
fn dedup_strings(v: &Vec<String>) -> (r: Vec<String>)
    ensures
        no_dups(views(r@)),
        forall|k: Seq<char>| views(r@).contains(k) <==> views(v@).contains(k),
{
    let mut out: Vec<String> = Vec::new();
    let mut i: usize = 0;
    while i < v.len()
        invariant
            0 <= i <= v@.len(),
            no_dups(views(out@)),
            forall|k: Seq<char>| views(out@).contains(k) <==> views(v@.take(i as int)).contains(k),
        decreases v@.len() - i,
    {
        let ghost before = views(out@);
        proof {
            assert(views(v@.take(i + 1)) == views(v@.take(i as int)).push(v@[i as int]@));
            assert(forall|k: Seq<char>| before.contains(k) <==> views(v@.take(i as int)).contains(k));
        }
        if !contains_string(&out, &v[i]) {
            out.push(v[i].clone());
            proof {
                assert(views(out@) == before.push(v@[i as int]@));
                assert forall|a: int, c: int| 0 <= a < views(out@).len() && 0 <= c < views(out@).len() && a != c implies views(out@)[a] != views(out@)[c] by {
                    if a == before.len() {
                        assert(views(out@)[c] == before[c]);
                        assert(before.contains(before[c]));
                    } else if c == before.len() {
                        assert(views(out@)[a] == before[a]);
                        assert(before.contains(before[a]));
                    }
                }
                assert forall|k: Seq<char>| views(out@).contains(k) <==> views(v@.take(i + 1)).contains(k) by {
                    let pv = views(v@.take(i as int));
                    let nv = views(v@.take(i + 1));
                    if views(out@).contains(k) {
                        let w = choose|w: int| 0 <= w < views(out@).len() && views(out@)[w] == k;
                        if w < before.len() {
                            assert(before.contains(k));
                            let u = choose|u: int| 0 <= u < pv.len() && pv[u] == k;
                            assert(nv[u] == k);
                        } else {
                            assert(nv[i as int] == k);
                        }
                    }
                    if nv.contains(k) {
                        let u = choose|u: int| 0 <= u < nv.len() && nv[u] == k;
                        if u < i {
                            assert(pv[u] == k);
                            assert(pv.contains(k));
                            assert(before.contains(k));
                            let w = choose|w: int| 0 <= w < before.len() && before[w] == k;
                            assert(views(out@)[w] == before[w]);
                        } else {
                            assert(views(out@)[before.len() as int] == k);
                        }
                    }
                }
            }
        } else {
            proof {
                assert forall|k: Seq<char>| views(out@).contains(k) <==> views(v@.take(i + 1)).contains(k) by {
                    let pv = views(v@.take(i as int));
                    let nv = views(v@.take(i + 1));
                    if views(out@).contains(k) {
                        let u = choose|u: int| 0 <= u < pv.len() && pv[u] == k;
                        assert(nv[u] == k);
                    }
                    if nv.contains(k) {
                        let u = choose|u: int| 0 <= u < nv.len() && nv[u] == k;
                        if u < i {
                            assert(pv[u] == k);
                        }
                    }
                }
            }
        }
        i = i + 1;
    }
    proof {
        assert(v@.take(v@.len() as int) == v@);
    }
    out
}

/// The short names that sections need, each once, in increasing order.
fn needed_short_names(ctx: &ExportContext) -> (r: Vec<String>)
    ensures
        strictly_lex_sorted(views(r@)),
        forall|k: Seq<char>| #[trigger] views(r@).contains(k) <==> needed_short_name(*ctx, k),
{
    let deps = &ctx.section_resource_deps;
    let mut all: Vec<String> = Vec::new();
    let mut i: usize = 0;
    while i < deps.len()
        invariant
            0 <= i <= deps@.len(),
            deps == &ctx.section_resource_deps,
            forall|k: Seq<char>|
                views(all@).contains(k) <==> exists|a: int, b: int|
                    0 <= a < i && 0 <= b < deps@[a].1@.len() && (#[trigger] deps@[a].1@[b])@ == k,
        decreases deps@.len() - i,
    {
        let shorts = &deps[i].1;
        let ghost prior = views(all@);
        let mut j: usize = 0;
        while j < shorts.len()
            invariant
                0 <= j <= shorts@.len(),
                views(all@) == prior + views(shorts@.take(j as int)),
            decreases shorts@.len() - j,
        {
            let ghost b0 = all@;
            all.push(shorts[j].clone());
            proof {
                assert(views(all@) =~= views(b0).push(shorts@[j as int]@));
                assert(views(shorts@.take(j + 1)) == views(shorts@.take(j as int)).push(shorts@[j as int]@));
                assert(views(all@) =~= prior + views(shorts@.take(j + 1)));
            }
            j = j + 1;
        }
        proof {
            assert(shorts@.take(shorts@.len() as int) == shorts@);
            assert forall|k: Seq<char>|
                views(all@).contains(k) <==> exists|a: int, b: int|
                    0 <= a < i + 1 && 0 <= b < deps@[a].1@.len() && (#[trigger] deps@[a].1@[b])@ == k by {
                if views(all@).contains(k) {
                    let w = choose|w: int| 0 <= w < views(all@).len() && views(all@)[w] == k;
                    if w < prior.len() {
                        assert(prior[w] == k);
                        assert(prior.contains(k));
                    } else {
                        assert(views(shorts@)[w - prior.len()] == k);
                        assert(deps@[i as int].1@[w - prior.len()]@ == k);
                    }
                }
                if exists|a: int, b: int| 0 <= a < i + 1 && 0 <= b < deps@[a].1@.len() && (#[trigger] deps@[a].1@[b])@ == k {
                    let (a, b) = choose|a: int, b: int| 0 <= a < i + 1 && 0 <= b < deps@[a].1@.len() && (#[trigger] deps@[a].1@[b])@ == k;
                    if a == i {
                        assert(views(all@)[prior.len() + b] == k);
                    } else {
                        assert(prior.contains(k));
                        let w = choose|w: int| 0 <= w < prior.len() && prior[w] == k;
                        assert(views(all@)[w] == k);
                    }
                }
            }
        }
        i = i + 1;
    }
    let uniq = dedup_strings(&all);
    proof {
        assert forall|k: Seq<char>| views(uniq@).contains(k) <==> needed_short_name(*ctx, k) by {
            if needed_short_name(*ctx, k) {
                let (a, b) = choose|a: int, b: int|
                    0 <= a < ctx.section_resource_deps@.len() && 0 <= b < ctx.section_resource_deps@[a].1@.len()
                        && (#[trigger] ctx.section_resource_deps@[a].1@[b])@ == k;
            }
        }
    }
    sort_strings(uniq)
}

/// The dependency rows of the sections.
fn section_dep_values(ctx: &ExportContext) -> (r: Vec<IonValue>)
    ensures
        deps_list(IonValue::List(r), section_deps(*ctx, ctx.section_resource_deps@)),
{
    let deps = &ctx.section_resource_deps;
    let mut out: Vec<IonValue> = Vec::new();
    let mut i: usize = 0;
    while i < deps.len()
        invariant
            0 <= i <= deps@.len(),
            deps == &ctx.section_resource_deps,
            out@.len() == section_deps(*ctx, deps@.take(i as int)).len(),
            forall|k: int|
                0 <= k < out@.len() ==> dep_entry(
                    #[trigger] out@[k],
                    section_deps(*ctx, deps@.take(i as int))[k].0,
                    section_deps(*ctx, deps@.take(i as int))[k].1,
                ),
        decreases deps@.len() - i,
    {
        proof {
            assert(deps@.take(i + 1).drop_last() == deps@.take(i as int));
            assert(deps@.take(i + 1).last() == deps@[i as int]);
        }
        let ghost prev = section_deps(*ctx, deps@.take(i as int));
        let ghost next = section_deps(*ctx, deps@.take(i + 1));
        let shorts = &deps[i].1;
        if shorts.len() > 0 {
            match ctx.symbols.get(deps[i].0.as_str()) {
                Some(ss) => {
                    let vals = known_sym_values(ctx, shorts);
                    if vals.len() > 0 {
                        let e = make_dep(*ss, vals, Ghost(known_syms(*ctx, shorts@)));
                        out.push(e);
                        proof {
                            assert(next == prev.push((*ss, known_syms(*ctx, shorts@))));
                        }
                    } else {
                        proof {
                            assert(next =~= prev);
                        }
                    }
                },
                None => {
                    proof {
                        assert(next =~= prev);
                    }
                },
            }
        } else {
            proof {
                assert(next =~= prev);
            }
        }
        i = i + 1;
    }
    proof {
        assert(deps@.take(deps@.len() as int) == deps@);
    }
    out
}

/// The raw media dependency rows of the short names.
fn resource_dep_values(ctx: &ExportContext, names: &Vec<String>) -> (r: Vec<IonValue>)
    ensures
        deps_list(IonValue::List(r), resource_deps(*ctx, views(names@))),
{
    let mut out: Vec<IonValue> = Vec::new();
    let ghost nv = views(names@);
    let mut i: usize = 0;
    while i < names.len()
        invariant
            0 <= i <= names@.len(),
            nv == views(names@),
            out@.len() == resource_deps(*ctx, nv.take(i as int)).len(),
            forall|k: int|
                0 <= k < out@.len() ==> dep_entry(
                    #[trigger] out@[k],
                    resource_deps(*ctx, nv.take(i as int))[k].0,
                    resource_deps(*ctx, nv.take(i as int))[k].1,
                ),
        decreases names@.len() - i,
    {
        proof {
            assert(nv.take(i + 1).drop_last() == nv.take(i as int));
            assert(nv.take(i + 1).last() == names@[i as int]@);
        }
        let ghost prev = resource_deps(*ctx, nv.take(i as int));
        let ghost next = resource_deps(*ctx, nv.take(i + 1));
        match ctx.symbols.get(names[i].as_str()) {
            Some(rs) => {
                let mut raw_name = "resource/".to_owned();
                let nc = chars_of(names[i].as_str());
                let mut t: usize = 0;
                proof {
                    reveal_strlit("resource/");
                    assert(raw_name@ =~= resource_prefix());
                }
                while t < nc.len()
                    invariant
                        0 <= t <= nc@.len(),
                        raw_name@ == resource_prefix() + nc@.take(t as int),
                    decreases nc@.len() - t,
                {
                    push_char(&mut raw_name, nc[t]);
                    proof {
                        assert(nc@.take(t + 1) == nc@.take(t as int).push(nc@[t as int]));
                    }
                    t = t + 1;
                }
                proof {
                    assert(nc@.take(nc@.len() as int) == nc@);
                }
                match ctx.symbols.get(raw_name.as_str()) {
                    Some(raw) => {
                        let dv: Vec<IonValue> = vec![IonValue::Symbol(*raw)];
                        let ghost ds = seq![*raw];
                        let e = make_dep(*rs, dv, Ghost(ds));
                        out.push(e);
                        proof {
                            assert(next == prev.push((*rs, seq![*raw])));
                        }
                    },
                    None => {
                        proof {
                            assert(next =~= prev);
                        }
                    },
                }
            },
            None => {
                proof {
                    assert(next =~= prev);
                }
            },
        }
        i = i + 1;
    }
    proof {
        assert(nv.take(nv.len() as int) == nv);
    }
    out
}

/// The entity name symbols of the fragments.
fn entity_sym_values(ctx: &ExportContext, frags: &Vec<KfxFragment>) -> (r: Vec<IonValue>)
    ensures
        syms_list(IonValue::List(r), entity_syms(*ctx, frags@)),
{
    let mut out: Vec<IonValue> = Vec::new();
    let ghost mut xs: Seq<u64> = Seq::empty();
    let mut i: usize = 0;
    while i < frags.len()
        invariant
            0 <= i <= frags@.len(),
            xs == entity_syms(*ctx, frags@.take(i as int)),
            out@.len() == xs.len(),
            forall|k: int| 0 <= k < xs.len() ==> #[trigger] out@[k] == IonValue::Symbol(xs[k]),
        decreases frags@.len() - i,
    {
        proof {
            assert(frags@.take(i + 1).drop_last() == frags@.take(i as int));
            assert(frags@.take(i + 1).last() == frags@[i as int]);
        }
        let name = chars_of(frags[i].fid.as_str());
        let singleton = name.len() > 0 && name[0] == '$';
        if !singleton {
            match ctx.symbols.get(frags[i].fid.as_str()) {
                Some(sym) => {
                    out.push(IonValue::Symbol(*sym));
                    proof {
                        xs = xs.push(*sym);
                    }
                },
                None => {},
            }
        }
        proof {
            assert(xs =~= entity_syms(*ctx, frags@.take(i + 1)));
        }
        i = i + 1;
    }
    proof {
        assert(frags@.take(frags@.len() as int) == frags@);
    }
    out
}

/// Build the container entity map fragment: the container with every
/// entity name that has a symbol (fragments named `$...` left out), and the
/// entity dependencies that lead Kindle from a section to its image data:
/// each section to the resources it needs, then each needed resource (in
/// increasing order of short name) to its `resource/<name>` raw media. The
/// dependency list is left out when it would be empty.
pub fn build_container_entity_map_fragment(
    container_id: &str,
    fragments: &Vec<KfxFragment>,
    ctx: &ExportContext,
) -> (r: KfxFragment)
    ensures
        exists|names: Seq<Seq<char>>|
            strictly_lex_sorted(names) && (forall|k: Seq<char>| names.contains(k) <==> needed_short_name(*ctx, k))
                && container_map_ok(*ctx, container_id@, fragments@, names, r),
{
    let entity_names = entity_sym_values(ctx, fragments);
    let cid = container_id.to_owned();
    let ce: Vec<(u64, IonValue)> = vec![(SYM_ID, IonValue::String(cid)), (SYM_CONTAINS, IonValue::List(entity_names))];
    let container_entry_value = IonValue::Struct(ce);
    let names = needed_short_names(ctx);
    let mut dependencies = section_dep_values(ctx);
    let ghost d1 = dependencies@;
    let mut more = resource_dep_values(ctx, &names);
    let ghost d2 = more@;
    dependencies.append(&mut more);
    let ghost rows = section_deps(*ctx, ctx.section_resource_deps@) + resource_deps(*ctx, views(names@));
    proof {
        assert forall|i: int| 0 <= i < rows.len() implies dep_entry(#[trigger] dependencies@[i], rows[i].0, rows[i].1) by {
            let n1 = section_deps(*ctx, ctx.section_resource_deps@).len();
            if i < n1 {
                assert(dependencies@[i] == d1[i]);
            } else {
                assert(dependencies@[i] == d2[i - n1]);
            }
        }
    }
    let has_deps = dependencies.len() > 0;
    let cl: Vec<IonValue> = vec![container_entry_value];
    let mut fields: Vec<(u64, IonValue)> = vec![(SYM_CONTAINER_LIST, IonValue::List(cl))];
    if has_deps {
        fields.push((SYM_ENTITY_DEPENDENCIES, IonValue::List(dependencies)));
    }
    let r = KfxFragment::singleton(SYM_CONTAINER_ENTITY_MAP, IonValue::Struct(fields));
    proof {
        assert(strictly_lex_sorted(views(names@)) && (forall|k: Seq<char>| views(names@).contains(k) <==> needed_short_name(*ctx, k))
            && container_map_ok(*ctx, container_id@, fragments@, views(names@), r));
    }
    r
}


/// Law: positions strictly increase along the position-id map, since every
/// content id counts for at least one character.
pub proof fn law_positions_increase(ctx: ExportContext, es: Seq<u64>, j: int, k: int)
    requires
        0 <= j < k <= es.len(),
    ensures
        pid_before(ctx, es, j) < pid_before(ctx, es, k),
    decreases k - j,
{
    if j < k - 1 {
        law_positions_increase(ctx, es, j, k - 1);
    }
}


/// The value of the first field of a struct entry.
pub open spec fn first_field(v: IonValue) -> Option<IonValue> {
    match v {
        IonValue::Struct(f) => if f@.len() > 0 {
            Some(f@[0].1)
        } else {
            None
        },
        _ => None,
    }
}

/// Law: the position-id map and the location map of one book list the same
/// content ids in the same order (the cover storyline, then the chapters in
/// one and the same order): the `k`-th location names the entity of the
/// `k`-th position-id entry, and only the closing position-id entry has no
/// location.
pub proof fn law_maps_same_order(ctx: ExportContext, pid_map: KfxFragment, loc_map: KfxFragment)
    requires
        position_id_map_ok(ctx, fid_sort(ctx.chapter_fragments@), pid_map),
        location_map_ok(ctx, fid_sort(ctx.chapter_fragments@), loc_map),
    ensures
        ({
            let pl = pid_map.value->List_0@;
            let ll = loc_map.value->List_0@[0]->Struct_0@[0].1->List_0@;
            &&& pl.len() == ll.len() + 1
            &&& forall|k: int| 0 <= k < ll.len() ==> #[trigger] first_field(ll[k]) == first_field(pl[k])
        }),
{
    let es = all_eids(ctx, fid_sort(ctx.chapter_fragments@));
    let pl = pid_map.value->List_0@;
    let ll = loc_map.value->List_0@[0]->Struct_0@[0].1->List_0@;
    assert forall|k: int| 0 <= k < ll.len() implies #[trigger] first_field(ll[k]) == first_field(pl[k]) by {
        assert(location_entry(ll[k], es[k]));
        assert(pid_entry(pl[k], es[k], pid_before(ctx, es, k) as int));
    }
}

} // verus!
