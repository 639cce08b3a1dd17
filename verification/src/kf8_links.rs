//! Internal links of a KF8 text flow. While the HTML is rewritten, every
//! link gets a placeholder `kindle:pos:fid:0000:off:<10 base-32 digits>`;
//! once the text is chunked, each placeholder is replaced by the real
//! `kindle:pos:fid:XXXX:off:YYYYYYYYYY` position of its target.

use vstd::prelude::*;
use crate::bytes::{append_bytes, base32_fixed, write_base32, lemma_base32_chars, is_base32_char};
use crate::strmap::{StrMap, PairMap};
use crate::anchors::{filepos_word, filepos_entry, id_position, resolve_filepos_to_offset, lookup_id_position};
use crate::text::{chars_of, starts_with, push_char};
use crate::kf8::Kf8Builder;

verus! {

/// The length of a link placeholder and of its replacement.
pub const PLACEHOLDER_LEN: usize = 34;

/// `needle` occurs in `h` at `j`.
pub open spec fn occurs_at(h: Seq<u8>, needle: Seq<u8>, j: int) -> bool {
    0 <= j && j + needle.len() <= h.len() && h.subrange(j, j + needle.len()) == needle
}

/// `memchr::memmem::find`: the index of the first occurrence of `needle` in
/// `haystack`, or `None` when it does not occur. The contract states exactly
/// that and nothing else.
#[verifier::external_body]
fn memmem_find(haystack: &[u8], needle: &[u8]) -> (r: Option<usize>)
    ensures
        match r {
            Some(i) => occurs_at(haystack@, needle@, i as int) && forall|k: int|
                0 <= k < i ==> !occurs_at(haystack@, needle@, k),
            None => forall|k: int| !occurs_at(haystack@, needle@, k),
        },
{
    memchr::memmem::find(haystack, needle)
}

/// `j` is the first occurrence of `needle` in `h` at or after `from`.
pub open spec fn first_occ_at(h: Seq<u8>, needle: Seq<u8>, from: int, j: int) -> bool {
    from <= j && occurs_at(h, needle, j) && forall|k: int| from <= k < j ==> !occurs_at(h, needle, k)
}

/// The first occurrence of `needle` in `h` at or after `from`.
pub open spec fn first_occurrence(h: Seq<u8>, needle: Seq<u8>, from: int) -> Option<int> {
    if exists|j: int| first_occ_at(h, needle, from, j) {
        Some(choose|j: int| first_occ_at(h, needle, from, j))
    } else {
        None
    }
}

/// The bytes `kindle:pos:fid:0000:off:` that start every link placeholder.
pub open spec fn pos_prefix() -> Seq<u8> {
    seq![
        107u8, 105, 110, 100, 108, 101, 58, 112, 111, 115, 58, 102, 105, 100, 58, 48, 48, 48, 48, 58,
        111, 102, 102, 58,
    ]
}

/// The bytes `:off:`.
pub open spec fn off_sep() -> Seq<u8> {
    seq![58u8, 111, 102, 102, 58]
}

/// The ASCII characters of the bytes `b`.
pub open spec fn ascii_chars(b: Seq<u8>) -> Seq<char> {
    b.map_values(|x: u8| x as char)
}

/// All bytes are ASCII.
pub open spec fn all_ascii(b: Seq<u8>) -> bool {
    forall|i: int| 0 <= i < b.len() ==> b[i] < 128
}

/// The placeholder of the `n`-th link: the prefix and `n` in ten base-32
/// digits.
pub open spec fn placeholder_bytes(n: nat) -> Seq<u8> {
    pos_prefix() + base32_fixed(n, 10)
}

/// A key of the placeholder table: the prefix followed by ten base-32
/// digits.
pub open spec fn is_placeholder_key(k: Seq<char>) -> bool {
    exists|b: Seq<u8>|
        #![trigger ascii_chars(b)]
        b.len() == PLACEHOLDER_LEN && b.subrange(0, 24) == pos_prefix() && (forall|i: int|
            24 <= i < 34 ==> is_base32_char(#[trigger] b[i])) && k == ascii_chars(b)
}

/// Every key of the placeholder table is a placeholder.
pub open spec fn placeholder_keys(link_map: StrMap<(String, String)>) -> bool {
    forall|i: int|
        0 <= i < link_map.entries@.len() ==> is_placeholder_key(#[trigger] link_map.entries@[i].0@)
}

/// The bytes of the link to chunk `seq_num` at `offset`:
/// `kindle:pos:fid:XXXX:off:YYYYYYYYYY`.
pub open spec fn pos_link_bytes(seq_num: nat, offset: nat) -> Seq<u8> {
    pos_prefix().subrange(0, 15) + base32_fixed(seq_num, 4) + off_sep() + base32_fixed(offset, 10)
}

/// The link target recorded for a placeholder window of the text.
pub open spec fn window_target(link_map: StrMap<(String, String)>, w: Seq<u8>) -> Option<(String, String)> {
    if all_ascii(w) {
        link_map.lookup(ascii_chars(w))
    } else {
        None
    }
}

/// The (seq_num, offset_in_chunk) of a link target `(file, fragment)`: a
/// `filepos` fragment goes through the anchor lists, any other through the
/// element ids (falling back to the start of the file).
pub open spec fn link_position(
    target: (String, String),
    id_map: PairMap<String>,
    aid_offset_map: StrMap<(usize, usize, usize)>,
    filepos_map: StrMap<Vec<(usize, String)>>,
) -> Option<(usize, usize)> {
    let file = target.0@;
    let frag = target.1@;
    let e = if frag.len() >= 7 && frag.take(7) == filepos_word() {
        filepos_entry(file, frag, filepos_map, aid_offset_map)
    } else {
        id_position(id_map, aid_offset_map, file, frag)
    };
    match e {
        Some(t) => Some((t.0, t.1)),
        None => None,
    }
}

/// The position a placeholder at `p` resolves to, if any.
pub open spec fn resolved_at(
    text: Seq<u8>,
    p: int,
    link_map: StrMap<(String, String)>,
    id_map: PairMap<String>,
    aid_offset_map: StrMap<(usize, usize, usize)>,
    filepos_map: StrMap<Vec<(usize, String)>>,
) -> Option<(usize, usize)> {
    if p + PLACEHOLDER_LEN <= text.len() {
        match window_target(link_map, text.subrange(p, p + PLACEHOLDER_LEN)) {
            Some(t) => link_position(t, id_map, aid_offset_map, filepos_map),
            None => None,
        }
    } else {
        None
    }
}

/// The text from `from` on with every resolvable placeholder replaced by
/// its position link, scanning left to right; an unresolvable occurrence
/// of the prefix is kept as it is.
pub open spec fn rewrite_links(
    text: Seq<u8>,
    from: int,
    link_map: StrMap<(String, String)>,
    id_map: PairMap<String>,
    aid_offset_map: StrMap<(usize, usize, usize)>,
    filepos_map: StrMap<Vec<(usize, String)>>,
) -> Seq<u8>
    decreases text.len() - from,
{
    if from < 0 || from >= text.len() {
        Seq::empty()
    } else {
        match first_occurrence(text, pos_prefix(), from) {
            None => text.subrange(from, text.len() as int),
            Some(p) => if p < from || p >= text.len() {
                Seq::empty()
            } else {
                match resolved_at(text, p, link_map, id_map, aid_offset_map, filepos_map) {
                    Some(pos) => text.subrange(from, p) + pos_link_bytes(pos.0 as nat, pos.1 as nat)
                        + rewrite_links(text, p + PLACEHOLDER_LEN, link_map, id_map, aid_offset_map, filepos_map),
                    None => text.subrange(from, p + 1) + rewrite_links(
                        text,
                        p + 1,
                        link_map,
                        id_map,
                        aid_offset_map,
                        filepos_map,
                    ),
                }
            },
        }
    }
}

/// The bytes `kindle:pos:fid:0000:off:`.
fn pos_prefix_vec() -> (r: Vec<u8>)
    ensures
        r@ == pos_prefix(),
{
    let r: Vec<u8> = vec![
        107u8, 105, 110, 100, 108, 101, 58, 112, 111, 115, 58, 102, 105, 100, 58, 48, 48, 48, 48, 58,
        111, 102, 102, 58,
    ];
    proof {
        assert(r@ =~= pos_prefix());
    }
    r
}

/// The placeholder string of the `n`-th link of a book.
pub fn link_placeholder(n: usize) -> (r: String)
    ensures
        r@ == ascii_chars(placeholder_bytes(n as nat)),
        is_placeholder_key(r@),
{
    let mut b = pos_prefix_vec();
    let digits = write_base32(n, 10);
    append_bytes(&mut b, digits.as_slice());
    let mut s = String::new();
    let mut i: usize = 0;
    while i < b.len()
        invariant
            0 <= i <= b@.len(),
            s@ == ascii_chars(b@.take(i as int)),
        decreases b@.len() - i,
    {
        push_char(&mut s, b[i] as char);
        proof {
            assert(ascii_chars(b@.take(i + 1)) =~= ascii_chars(b@.take(i as int)).push(b@[i as int] as char));
        }
        i = i + 1;
    }
    proof {
        assert(b@.take(b@.len() as int) == b@);
        lemma_base32_chars(n as nat, 10);
        assert(b@.subrange(0, 24) =~= pos_prefix());
        assert forall|j: int| 24 <= j < 34 implies is_base32_char(#[trigger] b@[j]) by {
            assert(b@[j] == base32_fixed(n as nat, 10)[j - 24]);
        }
        assert(b@.len() == PLACEHOLDER_LEN);
    }
    s
}

/// The bytes of the position link to chunk `seq_num` at `offset`.
fn pos_link(seq_num: usize, offset: usize) -> (r: Vec<u8>)
    ensures
        r@ == pos_link_bytes(seq_num as nat, offset as nat),
{
    let prefix = pos_prefix_vec();
    let mut r = slice_to_vec_u8(vstd::slice::slice_subrange(prefix.as_slice(), 0, 15));
    let fid = write_base32(seq_num, 4);
    append_bytes(&mut r, fid.as_slice());
    let sep: Vec<u8> = vec![58u8, 111, 102, 102, 58];
    proof {
        assert(sep@ =~= off_sep());
    }
    append_bytes(&mut r, sep.as_slice());
    let off = write_base32(offset, 10);
    append_bytes(&mut r, off.as_slice());
    r
}

/// A copy of a byte slice.
fn slice_to_vec_u8(s: &[u8]) -> (r: Vec<u8>)
    ensures
        r@ == s@,
{
    let mut r: Vec<u8> = Vec::new();
    append_bytes(&mut r, s);
    r
}

/// The link target recorded for the placeholder window `w`.
fn lookup_window<'a>(link_map: &'a StrMap<(String, String)>, w: &[u8]) -> (r: Option<&'a (String, String)>)
    ensures
        match window_target(*link_map, w@) {
            Some(t) => r == Some(&t),
            None => r is None,
        },
{
    let mut s = String::new();
    let mut i: usize = 0;
    while i < w.len()
        invariant
            0 <= i <= w@.len(),
            s@ == ascii_chars(w@.take(i as int)),
            forall|j: int| 0 <= j < i ==> w@[j] < 128,
        decreases w@.len() - i,
    {
        if w[i] >= 128 {
            return None;
        }
        push_char(&mut s, w[i] as char);
        proof {
            assert(ascii_chars(w@.take(i + 1)) =~= ascii_chars(w@.take(i as int)).push(w@[i as int] as char));
        }
        i = i + 1;
    }
    proof {
        assert(w@.take(w@.len() as int) == w@);
    }
    link_map.get(s.as_str())
}

/// The (seq_num, offset_in_chunk) of a link target.
fn resolve_link_target(
    target: &(String, String),
    id_map: &PairMap<String>,
    aid_offset_map: &StrMap<(usize, usize, usize)>,
    filepos_map: &StrMap<Vec<(usize, String)>>,
) -> (r: Option<(usize, usize)>)
    ensures
        r == link_position(*target, *id_map, *aid_offset_map, *filepos_map),
{
    let frag = chars_of(target.1.as_str());
    let word: [char; 7] = ['f', 'i', 'l', 'e', 'p', 'o', 's'];
    proof {
        assert(word@ == filepos_word());
    }
    if starts_with(&frag, &word) {
        resolve_filepos_to_offset(target.0.as_str(), target.1.as_str(), filepos_map, aid_offset_map)
    } else {
        match lookup_id_position(id_map, aid_offset_map, target.0.as_str(), target.1.as_str()) {
            Some((s, o, _)) => Some((s, o)),
            None => None,
        }
    }
}

/// The position a placeholder at `p` resolves to.
fn resolve_at(
    text: &[u8],
    p: usize,
    link_map: &StrMap<(String, String)>,
    id_map: &PairMap<String>,
    aid_offset_map: &StrMap<(usize, usize, usize)>,
    filepos_map: &StrMap<Vec<(usize, String)>>,
) -> (r: Option<(usize, usize)>)
    requires
        p <= text@.len(),
    ensures
        r is Some ==> p + PLACEHOLDER_LEN <= text@.len(),
        r == resolved_at(
            text@,
            p as int,
            *link_map,
            *id_map,
            *aid_offset_map,
            *filepos_map,
        ),
{
    if text.len() - p < PLACEHOLDER_LEN {
        return None;
    }
    let w = vstd::slice::slice_subrange(text, p, p + PLACEHOLDER_LEN);
    match lookup_window(link_map, w) {
        Some(t) => resolve_link_target(t, id_map, aid_offset_map, filepos_map),
        None => None,
    }
}

/// The text with its resolvable placeholders replaced.
fn rewrite_placeholders(
    link_map: &StrMap<(String, String)>,
    text: &[u8],
    id_map: &PairMap<String>,
    aid_offset_map: &StrMap<(usize, usize, usize)>,
    filepos_map: &StrMap<Vec<(usize, String)>>,
) -> (r: Vec<u8>)
    requires
        placeholder_keys(*link_map),
    ensures
        r@ == rewrite_links(
            text@,
            0,
            *link_map,
            *id_map,
            *aid_offset_map,
            *filepos_map,
        ),
{
    let prefix = pos_prefix_vec();
    let mut out: Vec<u8> = Vec::new();
    let mut pos: usize = 0;
    while pos < text.len()
        invariant
            0 <= pos <= text@.len(),
            prefix@ == pos_prefix(),
            out@ + rewrite_links(text@, pos as int, *link_map, *id_map, *aid_offset_map, *filepos_map)
                == rewrite_links(text@, 0, *link_map, *id_map, *aid_offset_map, *filepos_map),
        decreases text@.len() - pos,
    {
        let rest = vstd::slice::slice_subrange(text, pos, text.len());
        let ghost t = text@;
        let ghost n = pos_prefix().len();
        let found = memmem_find(rest, prefix.as_slice());
        match found {
            None => {
                proof {
                    assert forall|j: int| !first_occ_at(t, pos_prefix(), pos as int, j) by {
                        if first_occ_at(t, pos_prefix(), pos as int, j) {
                            assert(rest@.subrange(j - pos, j - pos + n) =~= t.subrange(j, j + n));
                            assert(occurs_at(rest@, prefix@, j - pos));
                        }
                    }
                }
                append_bytes(&mut out, rest);
                proof {
                    assert(rest@ == t.subrange(pos as int, t.len() as int));
                }
                pos = text.len();
            },
            Some(i) => {
                let p = pos + i;
                proof {
                    assert(rest@.subrange(i as int, i + n) =~= t.subrange(p as int, p + n));
                    assert forall|k: int| pos <= k < p implies !occurs_at(t, pos_prefix(), k) by {
                        if occurs_at(t, pos_prefix(), k) {
                            assert(rest@.subrange(k - pos, k - pos + n) =~= t.subrange(k, k + n));
                            assert(occurs_at(rest@, prefix@, k - pos));
                        }
                    }
                    assert(first_occ_at(t, pos_prefix(), pos as int, p as int));
                    let c = choose|j: int| first_occ_at(t, pos_prefix(), pos as int, j);
                    assert(first_occ_at(t, pos_prefix(), pos as int, c));
                    if c < p {
                        assert(!occurs_at(t, pos_prefix(), c));
                    }
                    if c > p {
                        assert(!occurs_at(t, pos_prefix(), p as int));
                    }
                    assert(c == p);
                }
                let resolved = resolve_at(text, p, link_map, id_map, aid_offset_map, filepos_map);
                match resolved {
                    Some((s, o)) => {
                        let ghost out0 = out@;
                        append_bytes(&mut out, vstd::slice::slice_subrange(text, pos, p));
                        let link = pos_link(s, o);
                        append_bytes(&mut out, link.as_slice());
                        proof {
                            let tail = rewrite_links(t, p + PLACEHOLDER_LEN, *link_map, *id_map, *aid_offset_map, *filepos_map);
                            assert(out@ + tail =~= out0 + (t.subrange(pos as int, p as int) + link@ + tail));
                        }
                        pos = p + PLACEHOLDER_LEN;
                    },
                    None => {
                        let ghost out0 = out@;
                        append_bytes(&mut out, vstd::slice::slice_subrange(text, pos, p + 1));
                        proof {
                            let tail = rewrite_links(t, p + 1, *link_map, *id_map, *aid_offset_map, *filepos_map);
                            assert(out@ + tail =~= out0 + (t.subrange(pos as int, p + 1) + tail));
                        }
                        pos = p + 1;
                    },
                }
            },
        }
    }
    proof {
        assert(rewrite_links(text@, pos as int, *link_map, *id_map, *aid_offset_map, *filepos_map) == Seq::<u8>::empty());
        assert(out@ + Seq::<u8>::empty() =~= out@);
    }
    out
}


/// The target recorded for placeholder `k` after the links `links` were
/// numbered on from `c0`: the last link numbered `k`, else what `m` had.
pub open spec fn links_after(
    m: StrMap<(String, String)>,
    links: Seq<(String, String)>,
    c0: nat,
    k: Seq<char>,
) -> Option<(String, String)>
    decreases links.len(),
{
    if links.len() == 0 {
        m.lookup(k)
    } else if k == ascii_chars(placeholder_bytes(c0 + links.len())) {
        Some(links.last())
    } else {
        links_after(m, links.drop_last(), c0, k)
    }
}

impl Kf8Builder {
    /// Replace every link placeholder of the text whose target resolves
    /// with the `kindle:pos:fid:XXXX:off:YYYYYYYYYY` position of that target
    /// (through the chunker's id, aid-offset and filepos tables).
    /// Placeholders that do not resolve, and any other text, are kept. For
    /// a `filepos` target the anchor is found by a binary search: with the
    /// anchor list in increasing order of position it is the nearest anchor
    /// at or before the target; with a list in any other order it is the
    /// anchor that the same search lands on (`search_index`).
    pub fn resolve_link_placeholders(
        &self,
        text: &[u8],
        id_map: &PairMap<String>,
        aid_offset_map: &StrMap<(usize, usize, usize)>,
        filepos_map: &StrMap<Vec<(usize, String)>>,
    ) -> (r: Vec<u8>)
        requires
            placeholder_keys(self.link_map),
        ensures
            r@.len() == text@.len(),
            r@ == rewrite_links(
                text@,
                0,
                self.link_map,
                *id_map,
                *aid_offset_map,
                *filepos_map,
            ),
    {
        let r = rewrite_placeholders(&self.link_map, text, id_map, aid_offset_map, filepos_map);
        proof {
            law_resolution_keeps_length(text@, 0, self.link_map, *id_map, *aid_offset_map, *filepos_map);
        }
        r
    }

    /// Give each link of a rewritten HTML file its placeholder, numbering on
    /// from the links handed out so far, and record its target.
    pub fn register_links(&mut self, links: &Vec<(String, String)>)
        requires
            old(self).link_counter + links@.len() < usize::MAX,
            placeholder_keys(old(self).link_map),
        ensures
            final(self).link_counter == old(self).link_counter + links@.len(),
            placeholder_keys(final(self).link_map),
            forall|k: Seq<char>|
                #[trigger] final(self).link_map.lookup(k) == links_after(
                    old(self).link_map,
                    links@,
                    old(self).link_counter as nat,
                    k,
                ),
            final(self).records == old(self).records,
            final(self).metadata == old(self).metadata,
    {
        let ghost start = self.link_map;
        let ghost c0 = self.link_counter as nat;
        let mut i: usize = 0;
        while i < links.len()
            invariant
                0 <= i <= links@.len(),
                self.link_counter == c0 + i,
                c0 + links@.len() < usize::MAX,
                placeholder_keys(self.link_map),
                forall|k: Seq<char>|
                    #[trigger] self.link_map.lookup(k) == links_after(start, links@.take(i as int), c0, k),
                self.records == old(self).records,
                self.metadata == old(self).metadata,
            decreases links@.len() - i,
        {
            let key = link_placeholder(self.link_counter + 1);
            let ghost before = self.link_map;
            self.link_map.insert(key, (links[i].0.clone(), links[i].1.clone()));
            proof {
                assert(links@.take(i + 1).drop_last() == links@.take(i as int));
                assert(links@.take(i + 1).last() == links@[i as int]);
                assert forall|j: int| 0 <= j < self.link_map.entries@.len() implies is_placeholder_key(
                    #[trigger] self.link_map.entries@[j].0@,
                ) by {
                    if self.link_map.entries@[j].0@ != key@ {
                        assert(self.link_map.entries@[j] == before.entries@[j]);
                    }
                }
                assert forall|k: Seq<char>|
                    #[trigger] self.link_map.lookup(k) == links_after(start, links@.take(i + 1), c0, k) by {
                    assert(self.link_map.lookup(k) == if k == key@ { Some((links@[i as int].0, links@[i as int].1)) } else { before.lookup(k) });
                }
            }
            self.link_counter = self.link_counter + 1;
            i = i + 1;
        }
        proof {
            assert(links@.take(links@.len() as int) == links@);
        }
    }
}


/// A position link is as long as a placeholder.
proof fn lemma_pos_link_len(seq_num: nat, offset: nat)
    ensures
        pos_link_bytes(seq_num, offset).len() == PLACEHOLDER_LEN,
{
    lemma_base32_chars(seq_num, 4);
    lemma_base32_chars(offset, 10);
}

/// Law: resolving the link placeholders keeps the length of the text, so
/// offsets computed on the text before resolution stay valid.
pub proof fn law_resolution_keeps_length(
    text: Seq<u8>,
    from: int,
    link_map: StrMap<(String, String)>,
    id_map: PairMap<String>,
    aid_offset_map: StrMap<(usize, usize, usize)>,
    filepos_map: StrMap<Vec<(usize, String)>>,
)
    requires
        0 <= from <= text.len(),
    ensures
        rewrite_links(text, from, link_map, id_map, aid_offset_map, filepos_map).len() == text.len() - from,
    decreases text.len() - from,
{
    if from < text.len() {
        match first_occurrence(text, pos_prefix(), from) {
            None => {},
            Some(p) => {
                let c = choose|j: int| first_occ_at(text, pos_prefix(), from, j);
                assert(first_occ_at(text, pos_prefix(), from, c));
                assert(p == c);
                match resolved_at(text, p, link_map, id_map, aid_offset_map, filepos_map) {
                    Some(pos) => {
                        lemma_pos_link_len(pos.0 as nat, pos.1 as nat);
                        law_resolution_keeps_length(text, p + PLACEHOLDER_LEN, link_map, id_map, aid_offset_map, filepos_map);
                    },
                    None => {
                        law_resolution_keeps_length(text, p + 1, link_map, id_map, aid_offset_map, filepos_map);
                    },
                }
            },
        }
    }
}

} // verus!
