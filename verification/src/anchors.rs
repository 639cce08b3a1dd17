//! Resolving link targets of a KF8 book to text positions: MOBI `filepos`
//! anchors, element ids, and the PDB-safe title.

use vstd::prelude::*;
use crate::strmap::{StrMap, PairMap};
use crate::text::{chars_of, string_of, push_char, starts_with, chars_from, chars_to, find_char, first_index_of, parse_usize, parse_usize_spec};

verus! {

/// A character kept by `sanitize_title`.
pub open spec fn title_char_kept(c: char) -> bool {
    ('a' <= c && c <= 'z') || ('A' <= c && c <= 'Z') || ('0' <= c && c <= '9') || c == ' ' || c == '_'
        || c == '-'
}

/// `s` with every character but ASCII letters, digits, space, `_` and `-`
/// removed, and spaces turned into underscores.
pub open spec fn sanitized(s: Seq<char>) -> Seq<char>
    decreases s.len(),
{
    if s.len() == 0 {
        Seq::empty()
    } else {
        sanitized(s.drop_last()) + if title_char_kept(s.last()) {
            seq![
                if s.last() == ' ' {
                    '_'
                } else {
                    s.last()
                },
            ]
        } else {
            Seq::<char>::empty()
        }
    }
}

/// The book title as a PDB database name: only ASCII letters, digits,
/// spaces, `_` and `-` are kept, and spaces become underscores.
pub fn sanitize_title(title: &str) -> (r: String)
    ensures
        r@ == sanitized(title@),
{
    let cs = chars_of(title);
    let mut out = String::new();
    let mut i: usize = 0;
    while i < cs.len()
        invariant
            0 <= i <= cs@.len(),
            out@ == sanitized(cs@.take(i as int)),
        decreases cs@.len() - i,
    {
        let c = cs[i];
        proof {
            assert(cs@.take(i + 1).drop_last() == cs@.take(i as int));
            assert(cs@.take(i + 1).last() == c);
        }
        if ('a' <= c && c <= 'z') || ('A' <= c && c <= 'Z') || ('0' <= c && c <= '9') || c == ' ' || c == '_' || c == '-' {
            if c == ' ' {
                push_char(&mut out, '_');
            } else {
                push_char(&mut out, c);
            }
        }
        i = i + 1;
    }
    proof {
        assert(cs@.take(cs@.len() as int) == cs@);
    }
    out
}


/// The word `filepos`.
pub open spec fn filepos_word() -> Seq<char> {
    seq!['f', 'i', 'l', 'e', 'p', 'o', 's']
}

/// The byte position named by a MOBI anchor fragment `filepos<N>`.
pub open spec fn filepos_target(fragment: Seq<char>) -> Option<nat> {
    if fragment.len() >= 7 && fragment.take(7) == filepos_word() {
        parse_usize_spec(fragment.skip(7))
    } else {
        None
    }
}

/// The anchor positions are listed in strictly increasing order.
pub open spec fn strictly_sorted(ps: Seq<(usize, String)>) -> bool {
    forall|i: int, j: int| 0 <= i < j < ps.len() ==> ps[i].0 < ps[j].0
}

/// `j` is the anchor at or nearest before `target` (or the first anchor when
/// all lie after it).
pub open spec fn nearest_index(ps: Seq<(usize, String)>, target: nat, j: int) -> bool {
    &&& 0 <= j < ps.len()
    &&& ((ps[j].0 <= target && (j + 1 == ps.len() || ps[j + 1].0 > target)) || (j == 0 && ps[0].0
        > target))
}

/// Where the binary search for `target` among the anchor positions ends up
/// within `lo..hi`: a probe in the middle that matches, or else the search
/// goes on in the half the probe points to; once the range is empty, the
/// anchor just before it (the first anchor when there is none before).
pub open spec fn search_from(ps: Seq<(usize, String)>, target: nat, lo: int, hi: int) -> int
    decreases hi - lo,
{
    if lo < hi {
        let mid = lo + (hi - lo) / 2;
        if ps[mid].0 == target {
            mid
        } else if ps[mid].0 < target {
            search_from(ps, target, mid + 1, hi)
        } else {
            search_from(ps, target, lo, mid)
        }
    } else if lo <= 0 {
        0
    } else {
        lo - 1
    }
}

/// The anchor that the binary search for `target` picks.
pub open spec fn search_index(ps: Seq<(usize, String)>, target: nat) -> int {
    search_from(ps, target, 0, ps.len() as int)
}

/// Among strictly increasing positions the binary search finds the nearest
/// anchor at or before the target, within the part of the list it has not
/// ruled out.
proof fn lemma_search_from(ps: Seq<(usize, String)>, target: nat, lo: int, hi: int)
    requires
        strictly_sorted(ps),
        ps.len() > 0,
        0 <= lo <= hi <= ps.len(),
        forall|i: int| 0 <= i < lo ==> ps[i].0 < target,
        forall|i: int| hi <= i < ps.len() ==> ps[i].0 > target,
    ensures
        nearest_index(ps, target, search_from(ps, target, lo, hi)),
    decreases hi - lo,
{
    if lo < hi {
        let mid = lo + (hi - lo) / 2;
        if ps[mid].0 == target {
        } else if ps[mid].0 < target {
            lemma_search_from(ps, target, mid + 1, hi);
        } else {
            lemma_search_from(ps, target, lo, mid);
        }
    }
}

/// Law: on strictly increasing positions the binary search picks the
/// nearest anchor at or before the target (the first anchor when the
/// target comes before all of them).
pub proof fn law_search_finds_nearest(ps: Seq<(usize, String)>, target: nat)
    requires
        strictly_sorted(ps),
        ps.len() > 0,
    ensures
        nearest_index(ps, target, search_index(ps, target)),
{
    lemma_search_from(ps, target, 0, ps.len() as int);
}

/// Among strictly increasing positions, only one anchor is nearest.
pub proof fn lemma_nearest_unique(ps: Seq<(usize, String)>, target: nat, j1: int, j2: int)
    requires
        strictly_sorted(ps),
        nearest_index(ps, target, j1),
        nearest_index(ps, target, j2),
    ensures
        j1 == j2,
{
    if j1 < j2 {
        assert(ps[j1 + 1].0 <= ps[j2].0 || j1 + 1 == j2);
    } else if j2 < j1 {
        assert(ps[j2 + 1].0 <= ps[j1].0 || j2 + 1 == j1);
    }
}

/// Every anchor list of the map is in strictly increasing order of position.
pub open spec fn positions_sorted(filepos_map: StrMap<Vec<(usize, String)>>) -> bool {
    forall|k: Seq<char>|
        match #[trigger] filepos_map.lookup(k) {
            Some(ps) => strictly_sorted(ps@),
            None => true,
        }
}

/// The aid entry of a `filepos` anchor, over sorted anchor lists.
pub open spec fn filepos_entry(
    file: Seq<char>,
    fragment: Seq<char>,
    filepos_map: StrMap<Vec<(usize, String)>>,
    aid_offset_map: StrMap<(usize, usize, usize)>,
) -> Option<(usize, usize, usize)> {
    match filepos_target(fragment) {
        None => None,
        Some(t) => match filepos_map.lookup(file) {
            None => None,
            Some(ps) => if ps@.len() == 0 {
                None
            } else {
                aid_offset_map.lookup(ps@[search_index(ps@, t)].1@)
            },
        },
    }
}

/// Binary search of `target` among the anchor positions: an exact match, or
/// else the anchor just before the insertion point (the first one when there
/// is none before).
fn filepos_index(ps: &Vec<(usize, String)>, target: usize) -> (r: usize)
    requires
        ps@.len() > 0,
    ensures
        r < ps@.len(),
        r == search_index(ps@, target as nat),
        strictly_sorted(ps@) ==> nearest_index(ps@, target as nat, r as int),
{
    let mut lo: usize = 0;
    let mut hi: usize = ps.len();
    while lo < hi
        invariant
            0 <= lo <= hi <= ps@.len(),
            search_from(ps@, target as nat, lo as int, hi as int) == search_index(ps@, target as nat),
            strictly_sorted(ps@) ==> forall|i: int| 0 <= i < lo ==> ps@[i].0 < target,
            strictly_sorted(ps@) ==> forall|i: int| hi <= i < ps@.len() ==> ps@[i].0 > target,
        decreases hi - lo,
    {
        let mid = lo + (hi - lo) / 2;
        let p = ps[mid].0;
        if p == target {
            return mid;
        } else if p < target {
            lo = mid + 1;
        } else {
            hi = mid;
        }
    }
    if lo == 0 {
        0
    } else {
        lo - 1
    }
}

/// The target byte position of a `filepos` fragment.
fn parse_filepos(fragment: &str) -> (r: Option<usize>)
    ensures
        match filepos_target(fragment@) {
            Some(t) => r == Some(t as usize),
            None => r is None,
        },
{
    let cs = chars_of(fragment);
    let word: [char; 7] = ['f', 'i', 'l', 'e', 'p', 'o', 's'];
    proof {
        assert(word@ == filepos_word());
    }
    if !starts_with(&cs, &word) {
        return None;
    }
    let rest = chars_from(&cs, 7);
    parse_usize(&rest)
}

/// The aid entry a MOBI `filepos` anchor resolves to: the anchor of `file`
/// at or nearest before the named position.
pub open spec fn filepos_entry_ok(
    file: Seq<char>,
    fragment: Seq<char>,
    filepos_map: StrMap<Vec<(usize, String)>>,
    aid_offset_map: StrMap<(usize, usize, usize)>,
    r: Option<(usize, usize, usize)>,
) -> bool {
    match filepos_target(fragment) {
        None => r is None,
        Some(t) => match filepos_map.lookup(file) {
            None => r is None,
            Some(ps) => if ps@.len() == 0 {
                r is None
            } else {
                exists|j: int|
                    0 <= j < ps@.len() && (strictly_sorted(ps@) ==> nearest_index(ps@, t, j)) && r
                        == aid_offset_map.lookup(#[trigger] ps@[j].1@)
            },
        },
    }
}

/// Resolve a MOBI `filepos` anchor to the full (seq_num, offset_in_chunk,
/// offset_in_text) entry of the aid closest at or before that position.
///
/// MOBI files use `#fileposNNN` anchors where NNN is a byte position in the
/// source HTML content; `filepos_map` lists, per file, the positions of the
/// aids there. When a list is not in increasing order of position, any aid
/// that the binary search may land on can come back.
pub fn resolve_filepos_entry(
    file: &str,
    fragment: &str,
    filepos_map: &StrMap<Vec<(usize, String)>>,
    aid_offset_map: &StrMap<(usize, usize, usize)>,
) -> (r: Option<(usize, usize, usize)>)
    ensures
        r == filepos_entry(file@, fragment@, *filepos_map, *aid_offset_map),
        filepos_entry_ok(file@, fragment@, *filepos_map, *aid_offset_map, r),
{
    let target_pos = match parse_filepos(fragment) {
        Some(t) => t,
        None => return None,
    };
    let positions = match filepos_map.get(file) {
        Some(p) => p,
        None => return None,
    };
    if positions.len() == 0 {
        return None;
    }
    let idx = filepos_index(positions, target_pos);
    let aid = &positions[idx].1;
    let r = match aid_offset_map.get(aid.as_str()) {
        Some(e) => Some(*e),
        None => None,
    };
    proof {
        assert(0 <= idx < positions@.len() && (strictly_sorted(positions@) ==> nearest_index(positions@, target_pos as nat, idx as int)) && r == aid_offset_map.lookup(positions@[idx as int].1@));
    }
    r
}

/// Resolve a MOBI `filepos` anchor to the (seq_num, offset_in_chunk) pair
/// needed for the `kindle:pos:fid:XXXX:off:YYYYYYYYYY` link form.
pub fn resolve_filepos_to_offset(
    file: &str,
    fragment: &str,
    filepos_map: &StrMap<Vec<(usize, String)>>,
    aid_offset_map: &StrMap<(usize, usize, usize)>,
) -> (r: Option<(usize, usize)>)
    ensures
        exists|e: Option<(usize, usize, usize)>|
            filepos_entry_ok(file@, fragment@, *filepos_map, *aid_offset_map, e) && r == match e {
                Some(t) => Some((t.0, t.1)),
                None => None,
            },
        r == filepos_offset(file@, fragment@, *filepos_map, *aid_offset_map),
{
    let e = resolve_filepos_entry(file, fragment, filepos_map, aid_offset_map);
    match e {
        Some((seq_num, offset_in_chunk, _)) => Some((seq_num, offset_in_chunk)),
        None => None,
    }
}


/// The file part of an href (before the first `#`).
pub open spec fn href_file(h: Seq<char>) -> Seq<char> {
    match first_index_of(h, '#') {
        Some(i) => h.take(i),
        None => h,
    }
}

/// The fragment part of an href (after the first `#`; empty when there is
/// no `#`).
pub open spec fn href_fragment(h: Seq<char>) -> Seq<char> {
    match first_index_of(h, '#') {
        Some(i) => h.skip(i + 1),
        None => Seq::empty(),
    }
}

/// Split an href into its file and fragment parts at the first `#`.
pub fn split_href(href: &str) -> (r: (String, String))
    ensures
        r.0@ == href_file(href@),
        r.1@ == href_fragment(href@),
{
    let cs = chars_of(href);
    let found = find_char(&cs, '#');
    match found {
        Some(i) => {
            let n = cs.len();
            assert(i < n);
            let file = chars_to(&cs, i);
            let frag = chars_from(&cs, i + 1);
            (string_of(&file), string_of(&frag))
        },
        None => (string_of(&cs), String::new()),
    }
}

/// The aid of an element id of `file`; without a match for the fragment,
/// the aid of the file's start.
pub open spec fn aid_for(id_map: PairMap<String>, file: Seq<char>, fragment: Seq<char>) -> Option<String> {
    match id_map.lookup(file, fragment) {
        Some(a) => Some(a),
        None => id_map.lookup(file, Seq::empty()),
    }
}

/// The (seq_num, offset_in_chunk, offset_in_text) entry of the element
/// `file#fragment`.
pub open spec fn id_position(
    id_map: PairMap<String>,
    aid_offset_map: StrMap<(usize, usize, usize)>,
    file: Seq<char>,
    fragment: Seq<char>,
) -> Option<(usize, usize, usize)> {
    match aid_for(id_map, file, fragment) {
        Some(a) => aid_offset_map.lookup(a@),
        None => None,
    }
}

/// Look up the position entry of the element `file#fragment` through the
/// chunker's id and aid tables.
pub fn lookup_id_position(
    id_map: &PairMap<String>,
    aid_offset_map: &StrMap<(usize, usize, usize)>,
    file: &str,
    fragment: &str,
) -> (r: Option<(usize, usize, usize)>)
    ensures
        r == id_position(*id_map, *aid_offset_map, file@, fragment@),
{
    let aid = match id_map.get(file, fragment) {
        Some(a) => Some(a),
        None => {
            let empty = String::new();
            id_map.get(file, empty.as_str())
        },
    };
    match aid {
        Some(a) => match aid_offset_map.get(a.as_str()) {
            Some(e) => Some(*e),
            None => None,
        },
        None => None,
    }
}


/// Law: sanitizing a title twice gives what sanitizing it once gave, and a
/// sanitized title is never longer than the title.
pub proof fn law_sanitize_title_idempotent(s: Seq<char>)
    ensures
        sanitized(sanitized(s)) == sanitized(s),
        sanitized(s).len() <= s.len(),
    decreases s.len(),
{
    if s.len() > 0 {
        law_sanitize_title_idempotent(s.drop_last());
        let a = sanitized(s.drop_last());
        let c = s.last();
        if title_char_kept(c) {
            let d = if c == ' ' { '_' } else { c };
            assert(sanitized(s) == a.push(d));
            assert(a.push(d).drop_last() == a);
            assert(sanitized(a.push(d)) == sanitized(a) + seq![d]);
        } else {
            assert(sanitized(s) == a + Seq::<char>::empty());
            assert(a + Seq::<char>::empty() == a);
        }
    }
}

/// Law: on anchor lists in increasing order of position, the nearest anchor
/// at or before a `filepos` target is the only admissible one, so the entry
/// that both resolvers report (`filepos_entry`) is that anchor's.
pub proof fn law_filepos_admissible_unique(
    file: Seq<char>,
    fragment: Seq<char>,
    filepos_map: StrMap<Vec<(usize, String)>>,
    aid_offset_map: StrMap<(usize, usize, usize)>,
    e: Option<(usize, usize, usize)>,
)
    requires
        positions_sorted(filepos_map),
        filepos_entry_ok(file, fragment, filepos_map, aid_offset_map, e),
    ensures
        e == filepos_entry(file, fragment, filepos_map, aid_offset_map),
{
    match filepos_target(fragment) {
        None => {},
        Some(t) => match filepos_map.lookup(file) {
            None => {},
            Some(ps) => if ps@.len() > 0 {
                assert(strictly_sorted(ps@));
                let j = choose|j: int|
                    0 <= j < ps@.len() && (strictly_sorted(ps@) ==> nearest_index(ps@, t, j)) && e
                        == aid_offset_map.lookup(#[trigger] ps@[j].1@);
                let n = search_index(ps@, t);
                law_search_finds_nearest(ps@, t);
                lemma_nearest_unique(ps@, t, j, n);
            },
        },
    }
}


/// The (seq_num, offset_in_chunk) pair of a `filepos` fragment.
pub open spec fn filepos_offset(
    file: Seq<char>,
    fragment: Seq<char>,
    filepos_map: StrMap<Vec<(usize, String)>>,
    aid_offset_map: StrMap<(usize, usize, usize)>,
) -> Option<(usize, usize)> {
    match filepos_entry(file, fragment, filepos_map, aid_offset_map) {
        Some(t) => Some((t.0, t.1)),
        None => None,
    }
}

/// Law: on every anchor table, sorted or not, the (seq_num, offset)
/// resolver gives the first two fields of what the full-entry resolver
/// gives, and both are `None` together.
pub proof fn law_filepos_resolvers_agree(
    file: Seq<char>,
    fragment: Seq<char>,
    filepos_map: StrMap<Vec<(usize, String)>>,
    aid_offset_map: StrMap<(usize, usize, usize)>,
)
    ensures
        ({
            let e = filepos_entry(file, fragment, filepos_map, aid_offset_map);
            let o = filepos_offset(file, fragment, filepos_map, aid_offset_map);
            &&& (o is Some <==> e is Some)
            &&& (e matches Some(t) ==> o == Some((t.0, t.1)))
        }),
{
}

} // verus!
