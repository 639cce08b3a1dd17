//! The KF8 (AZW3) container: the text, resource and index records of a
//! book, the FDST/FLIS/FCIS/EOF records, the EXTH metadata block, record 0
//! (PalmDOC and MOBI headers) and the PalmDB file that holds them all.

use vstd::prelude::*;
use vstd::utf8::encode_utf8;
use crate::bytes::{be16, be32, append_bytes, push_be16, push_be32, push_repeat, base32_fixed, write_base32};
use crate::strmap::StrMap;
use crate::toc::NcxBuildEntry;

verus! {

/// Uncompressed size of one text record.
pub const RECORD_SIZE: usize = 4096;

/// The "no such record" value of MOBI header indices.
pub const NULL_INDEX: u32 = 0xFFFF_FFFF;

/// The UTF-8 bytes of a string.
pub open spec fn utf8(s: Seq<char>) -> Seq<u8> {
    encode_utf8(s)
}

/// `n` zero bytes.
pub open spec fn zeros(n: nat) -> Seq<u8> {
    Seq::new(n, |_i: int| 0u8)
}

/// A copy of a byte slice.
pub fn bytes_to_vec(s: &[u8]) -> (r: Vec<u8>)
    ensures
        r@ == s@,
{
    let mut r: Vec<u8> = Vec::new();
    append_bytes(&mut r, s);
    r
}

/// The bibliographic metadata of a book that the KF8 headers carry.
pub struct Metadata {
    pub title: String,
    pub authors: Vec<String>,
    pub publisher: Option<String>,
    pub description: Option<String>,
    pub subjects: Vec<String>,
    pub date: Option<String>,
    /// Names of the contributors.
    pub contributors: Vec<String>,
    pub rights: Option<String>,
    pub identifier: String,
    /// Href of the cover image, if any.
    pub cover_image: Option<String>,
    pub language: String,
}

/// The records of a KF8 book being assembled, with the header values that
/// record 0 reports about them.
pub struct Kf8Builder {
    /// Record 0 (headers) first, then text, index, resource and trailer records.
    pub records: Vec<Vec<u8>>,
    /// Length of the text flow in bytes.
    pub text_length: usize,
    pub last_text_record: u16,
    pub first_non_text_record: u16,
    pub first_resource_record: u32,
    pub skel_index: u32,
    pub frag_index: u32,
    pub ncx_index: u32,
    pub guide_index: u32,
    /// CSS flows (flow 0 is the text; these are flows 1 and on).
    pub css_flows: Vec<String>,
    /// Total length of all flows (text and CSS).
    pub flows_length: usize,
    /// Sorted hrefs of the image resources.
    pub image_hrefs: Vec<String>,
    /// Sorted hrefs of the font resources.
    pub font_hrefs: Vec<String>,
    /// Resource href to its 1-based resource record number.
    pub resource_map: StrMap<usize>,
    /// Number of link placeholders handed out.
    pub link_counter: usize,
    /// Link placeholder to (target file href, target fragment).
    pub link_map: StrMap<(String, String)>,
    /// NCX entries, kept for the trailing byte sequences.
    pub ncx_entries: Vec<NcxBuildEntry>,
    pub metadata: Metadata,
}

/// Two builder states that differ at most in their records.
pub open spec fn same_but_records(a: Kf8Builder, b: Kf8Builder) -> bool {
    &&& a.text_length == b.text_length
    &&& a.last_text_record == b.last_text_record
    &&& a.first_non_text_record == b.first_non_text_record
    &&& a.first_resource_record == b.first_resource_record
    &&& a.skel_index == b.skel_index
    &&& a.frag_index == b.frag_index
    &&& a.ncx_index == b.ncx_index
    &&& a.guide_index == b.guide_index
    &&& a.css_flows == b.css_flows
    &&& a.flows_length == b.flows_length
    &&& a.image_hrefs == b.image_hrefs
    &&& a.font_hrefs == b.font_hrefs
    &&& a.resource_map == b.resource_map
    &&& a.link_counter == b.link_counter
    &&& a.link_map == b.link_map
    &&& a.ncx_entries == b.ncx_entries
    &&& a.metadata == b.metadata
}

/// The bytes of the FDST record: the flow count, then the (start, end) of the
/// text flow and of each CSS flow, laid end to end.
pub open spec fn fdst_bytes(text_length: nat, css: Seq<String>) -> Seq<u8> {
    seq![70u8, 68, 83, 84] + be32(12) + be32((1 + css.len()) as u32) + be32(0) + be32(text_length as u32)
        + fdst_flows(text_length, css)
}

/// Total byte length of the CSS flows.
pub open spec fn css_total(css: Seq<String>) -> nat
    decreases css.len(),
{
    if css.len() == 0 {
        0
    } else {
        css_total(css.drop_last()) + utf8(css.last()@).len()
    }
}

/// The (start, end) pairs of the CSS flows, which follow the text.
pub open spec fn fdst_flows(text_length: nat, css: Seq<String>) -> Seq<u8>
    decreases css.len(),
{
    if css.len() == 0 {
        Seq::empty()
    } else {
        fdst_flows(text_length, css.drop_last()) + be32((text_length + css_total(css.drop_last())) as u32)
            + be32((text_length + css_total(css)) as u32)
    }
}

/// The FLIS record.
pub open spec fn flis_bytes() -> Seq<u8> {
    seq![
        70u8, 76, 73, 83, 0, 0, 0, 8, 0, 65, 0, 0, 0, 0, 0, 0, 255, 255, 255, 255, 0, 1, 0, 3, 0, 0, 0,
        3, 0, 0, 0, 1, 255, 255, 255, 255,
    ]
}

/// The FCIS record, which carries the text length.
pub open spec fn fcis_bytes(text_length: u32) -> Seq<u8> {
    seq![70u8, 67, 73, 83, 0, 0, 0, 20, 0, 0, 0, 16, 0, 0, 0, 2, 0, 0, 0, 0] + be32(text_length)
        + seq![0u8, 0, 0, 0, 0, 0, 0, 40, 0, 0, 0, 0, 0, 0, 0] + seq![
        40u8, 0, 0, 0, 8, 0, 1, 0, 1, 0, 0, 0, 0,
    ]
}

/// The EOF record.
pub open spec fn eof_bytes() -> Seq<u8> {
    seq![0xe9u8, 0x8e, 13, 10]
}

impl Kf8Builder {
    /// A builder for `metadata` with only the placeholder of record 0 and no
    /// index records.
    pub fn empty(metadata: Metadata) -> (r: Self)
        ensures
            r.records@.len() == 1,
            r.records@[0]@.len() == 0,
            r.text_length == 0,
            r.last_text_record == 0,
            r.first_non_text_record == 0,
            r.first_resource_record == NULL_INDEX,
            r.skel_index == NULL_INDEX,
            r.frag_index == NULL_INDEX,
            r.ncx_index == NULL_INDEX,
            r.guide_index == NULL_INDEX,
            r.css_flows@.len() == 0,
            r.flows_length == 0,
            r.image_hrefs@.len() == 0,
            r.font_hrefs@.len() == 0,
            r.resource_map.entries@.len() == 0,
            r.link_counter == 0,
            r.link_map.entries@.len() == 0,
            r.ncx_entries@.len() == 0,
            r.metadata == metadata,
    {
        Kf8Builder {
            records: vec![Vec::new()],
            text_length: 0,
            last_text_record: 0,
            first_non_text_record: 0,
            first_resource_record: NULL_INDEX,
            skel_index: NULL_INDEX,
            frag_index: NULL_INDEX,
            ncx_index: NULL_INDEX,
            guide_index: NULL_INDEX,
            css_flows: Vec::new(),
            flows_length: 0,
            image_hrefs: Vec::new(),
            font_hrefs: Vec::new(),
            resource_map: StrMap { entries: Vec::new() },
            link_counter: 0,
            link_map: StrMap { entries: Vec::new() },
            ncx_entries: Vec::new(),
            metadata,
        }
    }

    /// Append the FDST record, which locates every flow in the raw markup.
    pub fn build_fdst_record(&mut self)
        requires
            old(self).text_length + css_total(old(self).css_flows@) <= usize::MAX,
            old(self).css_flows@.len() + 1 <= u32::MAX,
        ensures
            final(self).records@ == old(self).records@.push(final(self).records@.last()),
            final(self).records@.last()@ == fdst_bytes(old(self).text_length as nat, old(self).css_flows@),
            same_but_records(*old(self), *final(self)),
    {
        let num_flows = 1 + self.css_flows.len();
        let mut fdst: Vec<u8> = vec![70u8, 68, 83, 84];
        push_be32(&mut fdst, 12);
        push_be32(&mut fdst, num_flows as u32);
        push_be32(&mut fdst, 0);
        push_be32(&mut fdst, self.text_length as u32);
        let ghost head = fdst@;
        let mut offset: usize = self.text_length;
        let mut i: usize = 0;
        while i < self.css_flows.len()
            invariant
                0 <= i <= self.css_flows@.len(),
                self.text_length + css_total(self.css_flows@) <= usize::MAX,
                offset == self.text_length + css_total(self.css_flows@.take(i as int)),
                fdst@ == head + fdst_flows(self.text_length as nat, self.css_flows@.take(i as int)),
            decreases self.css_flows@.len() - i,
        {
            proof {
                lemma_css_total_prefix(self.css_flows@, i as int + 1);
                assert(self.css_flows@.take(i + 1).drop_last() == self.css_flows@.take(i as int));
                assert(self.css_flows@.take(i + 1).last() == self.css_flows@[i as int]);
            }
            let start = offset;
            let end = offset + self.css_flows[i].as_str().len();
            push_be32(&mut fdst, start as u32);
            push_be32(&mut fdst, end as u32);
            proof {
                assert(fdst@ =~= head + fdst_flows(self.text_length as nat, self.css_flows@.take(i + 1)));
            }
            offset = end;
            i = i + 1;
        }
        proof {
            assert(self.css_flows@.take(self.css_flows@.len() as int) == self.css_flows@);
            assert(fdst@ =~= fdst_bytes(self.text_length as nat, self.css_flows@));
        }
        self.records.push(fdst);
    }

    /// Append the FLIS, FCIS and EOF records.
    pub fn build_flis_fcis_eof(&mut self)
        ensures
            final(self).records@.len() == old(self).records@.len() + 3,
            forall|i: int| 0 <= i < old(self).records@.len() ==> final(self).records@[i] == old(self).records@[i],
            final(self).records@[old(self).records@.len() as int]@ == flis_bytes(),
            final(self).records@[old(self).records@.len() as int + 1]@ == fcis_bytes(old(self).text_length as u32),
            final(self).records@[old(self).records@.len() as int + 2]@ == eof_bytes(),
            same_but_records(*old(self), *final(self)),
    {
        let flis: Vec<u8> = vec![
            70u8, 76, 73, 83, 0, 0, 0, 8, 0, 65, 0, 0, 0, 0, 0, 0, 255, 255, 255, 255, 0, 1, 0, 3, 0, 0,
            0, 3, 0, 0, 0, 1, 255, 255, 255, 255,
        ];
        proof {
            assert(flis@ =~= flis_bytes());
        }
        self.records.push(flis);
        let mut fcis: Vec<u8> = vec![70u8, 67, 73, 83, 0, 0, 0, 20, 0, 0, 0, 16, 0, 0, 0, 2, 0, 0, 0, 0];
        push_be32(&mut fcis, self.text_length as u32);
        let tail1: Vec<u8> = vec![0u8, 0, 0, 0, 0, 0, 0, 40, 0, 0, 0, 0, 0, 0, 0];
        append_bytes(&mut fcis, tail1.as_slice());
        let tail2: Vec<u8> = vec![40u8, 0, 0, 0, 8, 0, 1, 0, 1, 0, 0, 0, 0];
        append_bytes(&mut fcis, tail2.as_slice());
        proof {
            assert(fcis@ =~= fcis_bytes(self.text_length as u32));
        }
        self.records.push(fcis);
        let eof: Vec<u8> = vec![0xe9u8, 0x8e, 13, 10];
        proof {
            assert(eof@ =~= eof_bytes());
        }
        self.records.push(eof);
    }
}

/// One EXTH record: its type, its total length and its data.
pub open spec fn exth_record(code: u32, data: Seq<u8>) -> Seq<u8> {
    be32(code) + be32((8 + data.len()) as u32) + data
}

/// The EXTH records laid end to end.
pub open spec fn exth_entries(recs: Seq<(u32, Seq<u8>)>) -> Seq<u8>
    decreases recs.len(),
{
    if recs.len() == 0 {
        Seq::empty()
    } else {
        exth_entries(recs.drop_last()) + exth_record(recs.last().0, recs.last().1)
    }
}

/// The zero bytes that pad `n` bytes to a multiple of four.
pub open spec fn pad4(n: nat) -> nat {
    if n % 4 == 0 {
        0
    } else {
        (4 - n % 4) as nat
    }
}

/// The EXTH block: `EXTH`, the block length, the record count, the records,
/// and zero padding to a multiple of four bytes.
pub open spec fn exth_block(recs: Seq<(u32, Seq<u8>)>) -> Seq<u8> {
    let content = be32(recs.len() as u32) + exth_entries(recs);
    let padded = content + zeros(pad4(content.len()));
    seq![69u8, 88, 84, 72] + be32((12 + padded.len()) as u32) + padded
}

/// One record of type `code` per string of `v`.
pub open spec fn str_recs(code: u32, v: Seq<String>) -> Seq<(u32, Seq<u8>)> {
    v.map_values(|s: String| (code, utf8(s@)))
}

/// A record of type `code` when the value is present.
pub open spec fn opt_rec(code: u32, o: Option<String>) -> Seq<(u32, Seq<u8>)> {
    match o {
        Some(s) => seq![(code, utf8(s@))],
        None => Seq::empty(),
    }
}

/// The source identifier: `calibre:<identifier>`, or `boko:<title>` when the
/// book has no identifier.
pub open spec fn source_id(md: Metadata) -> Seq<u8> {
    if md.identifier@.len() == 0 {
        seq![98u8, 111, 107, 111, 58] + utf8(md.title@)
    } else {
        seq![99u8, 97, 108, 105, 98, 114, 101, 58] + utf8(md.identifier@)
    }
}

/// The index of the first href of `v` equal to `h`.
pub open spec fn first_href_index(v: Seq<String>, h: Seq<char>) -> Option<int> {
    if exists|i: int| 0 <= i < v.len() && v[i]@ == h && forall|j: int| 0 <= j < i ==> v[j]@ != h {
        Some(choose|i: int| 0 <= i < v.len() && v[i]@ == h && forall|j: int| 0 <= j < i ==> v[j]@ != h)
    } else {
        None
    }
}

/// The bytes `kindle:embed:`.
pub open spec fn embed_prefix() -> Seq<u8> {
    seq![107u8, 105, 110, 100, 108, 101, 58, 101, 109, 98, 101, 100, 58]
}

/// The cover records: cover offset (201), no fake cover (203), thumbnail
/// offset (202) and thumbnail URI (129), when the cover is an image of the
/// book.
pub open spec fn cover_recs(cover: Option<String>, image_hrefs: Seq<String>) -> Seq<(u32, Seq<u8>)> {
    match cover {
        Some(c) => match first_href_index(image_hrefs, c@) {
            Some(i) => seq![
                (201u32, be32(i as u32)),
                (203u32, be32(0)),
                (202u32, be32(i as u32)),
                (129u32, embed_prefix() + base32_fixed((i as u32) as nat, 4)),
            ],
            None => Seq::empty(),
        },
        None => Seq::empty(),
    }
}

/// The primary language subtag (`en` of `en-GB`).
pub open spec fn primary_language(l: Seq<char>) -> Seq<char> {
    match crate::text::first_index_of(l, '-') {
        Some(i) => l.take(i),
        None => l,
    }
}

/// The language record (524), when the book names a language.
pub open spec fn lang_recs(l: Seq<char>) -> Seq<(u32, Seq<u8>)> {
    if l.len() == 0 {
        Seq::empty()
    } else {
        seq![(524u32, utf8(primary_language(l)))]
    }
}

/// The records that follow the title: ASIN placeholder, document type,
/// language, resource count and the KF8 housekeeping and creator fields.
pub open spec fn tail_recs(md: Metadata, n_resources: nat) -> Seq<(u32, Seq<u8>)> {
    seq![
        (503u32, utf8(md.title@)),
        (113u32, seq![69u8, 66, 79, 75, 48, 48, 48, 48, 48, 48]),
        (501u32, seq![69u8, 66, 79, 75]),
    ] + lang_recs(md.language@) + seq![
        (125u32, be32(n_resources as u32)),
        (131u32, be32(0)),
        (204u32, be32(201)),
        (205u32, be32(2)),
        (206u32, be32(9)),
        (207u32, be32(0)),
        (535u32, seq![48u8, 55, 51, 48, 45, 56, 57, 48, 97, 100, 99, 50]),
        (528u32, seq![116u8, 114, 117, 101]),
    ]
}

/// All EXTH records of a book, in order.
pub open spec fn exth_list(md: Metadata, image_hrefs: Seq<String>, n_fonts: nat) -> Seq<(u32, Seq<u8>)> {
    head_recs(md) + cover_recs(md.cover_image, image_hrefs) + tail_recs(md, image_hrefs.len() + n_fonts)
}

/// EXTH records as plain values.
pub open spec fn rec_views(v: Seq<(u32, Vec<u8>)>) -> Seq<(u32, Seq<u8>)> {
    v.map_values(|r: (u32, Vec<u8>)| (r.0, r.1@))
}

/// The UTF-8 bytes of a string, as a vector.
fn string_bytes(s: &String) -> (r: Vec<u8>)
    ensures
        r@ == utf8(s@),
{
    bytes_to_vec(s.as_str().as_bytes())
}

/// Append one record of type `code` per string.
fn push_str_recs(recs: &mut Vec<(u32, Vec<u8>)>, code: u32, v: &Vec<String>)
    ensures
        rec_views(final(recs)@) == rec_views(old(recs)@) + str_recs(code, v@),
{
    let mut i: usize = 0;
    while i < v.len()
        invariant
            0 <= i <= v@.len(),
            rec_views(recs@) == rec_views(old(recs)@) + str_recs(code, v@.take(i as int)),
        decreases v@.len() - i,
    {
        let data = string_bytes(&v[i]);
        let ghost before = recs@;
        recs.push((code, data));
        proof {
            assert(rec_views(recs@) =~= rec_views(before).push((code, data@)));
            assert(str_recs(code, v@.take(i + 1)) =~= str_recs(code, v@.take(i as int)).push((code, utf8(v@[i as int]@))));
        }
        i = i + 1;
    }
    proof {
        assert(v@.take(v@.len() as int) == v@);
    }
}

/// Append a record of type `code` when the value is present.
fn push_opt_rec(recs: &mut Vec<(u32, Vec<u8>)>, code: u32, o: &Option<String>)
    ensures
        rec_views(final(recs)@) == rec_views(old(recs)@) + opt_rec(code, *o),
{
    match o {
        Some(s) => {
            let data = string_bytes(s);
            recs.push((code, data));
            proof {
                assert(rec_views(final(recs)@) =~= rec_views(old(recs)@) + opt_rec(code, *o));
            }
        },
        None => {
            proof {
                assert(rec_views(recs@) =~= rec_views(old(recs)@) + opt_rec(code, *o));
            }
        },
    }
}

/// Append a record with the given data.
fn push_rec(recs: &mut Vec<(u32, Vec<u8>)>, code: u32, data: Vec<u8>)
    ensures
        rec_views(final(recs)@) == rec_views(old(recs)@).push((code, data@)),
{
    recs.push((code, data));
    proof {
        assert(rec_views(final(recs)@) =~= rec_views(old(recs)@).push((code, data@)));
    }
}

/// The index of the first href equal to `h`.
fn position_of(v: &Vec<String>, h: &String) -> (r: Option<usize>)
    ensures
        match r {
            Some(k) => first_href_index(v@, h@) == Some(k as int),
            None => first_href_index(v@, h@) is None,
        },
{
    let mut i: usize = 0;
    while i < v.len()
        invariant
            0 <= i <= v@.len(),
            forall|j: int| 0 <= j < i ==> v@[j]@ != h@,
        decreases v@.len() - i,
    {
        if v[i] == *h {
            proof {
                let w = choose|k: int| 0 <= k < v@.len() && v@[k]@ == h@ && forall|j: int| 0 <= j < k ==> v@[j]@ != h@;
                assert(0 <= i < v@.len() && v@[i as int]@ == h@ && forall|j: int| 0 <= j < i ==> v@[j]@ != h@);
                if w < i {
                    assert(v@[w]@ != h@);
                }
                if w > i {
                    assert(v@[i as int]@ != h@);
                }
            }
            return Some(i);
        }
        i = i + 1;
    }
    None
}

/// The lengths of EXTH record prefixes grow with the prefix.
proof fn lemma_entries_prefix(recs: Seq<(u32, Seq<u8>)>, k: int)
    requires
        0 <= k <= recs.len(),
    ensures
        exth_entries(recs.take(k)).len() <= exth_entries(recs).len(),
        exth_entries(recs).len() >= 8 * recs.len(),
    decreases recs.len(),
{
    if recs.len() > 0 {
        if k < recs.len() {
            assert(recs.drop_last().take(k) == recs.take(k));
            lemma_entries_prefix(recs.drop_last(), k);
        } else {
            assert(recs.take(k) == recs);
            lemma_entries_prefix(recs.drop_last(), 0);
        }
    } else {
        assert(recs.take(k) == recs);
    }
}

/// The EXTH block of the given records.
fn exth_from_records(recs: &Vec<(u32, Vec<u8>)>) -> (r: Vec<u8>)
    requires
        exth_entries(rec_views(recs@)).len() + 32 <= u32::MAX,
    ensures
        r@ == exth_block(rec_views(recs@)),
{
    let ghost rv = rec_views(recs@);
    proof {
        lemma_entries_prefix(rv, 0);
    }
    let mut content: Vec<u8> = Vec::new();
    push_be32(&mut content, recs.len() as u32);
    let ghost head = content@;
    let mut i: usize = 0;
    while i < recs.len()
        invariant
            0 <= i <= recs@.len(),
            rv == rec_views(recs@),
            exth_entries(rv).len() + 32 <= u32::MAX,
            content@ == head + exth_entries(rv.take(i as int)),
        decreases recs@.len() - i,
    {
        proof {
            assert(rv.take(i + 1).drop_last() == rv.take(i as int));
            assert(rv.take(i + 1).last() == (recs@[i as int].0, recs@[i as int].1@));
            lemma_entries_prefix(rv, i + 1);
        }
        let code = recs[i].0;
        let data = &recs[i].1;
        let rec_len = 8 + data.len() as u32;
        push_be32(&mut content, code);
        push_be32(&mut content, rec_len);
        append_bytes(&mut content, data.as_slice());
        proof {
            assert(content@ =~= head + exth_entries(rv.take(i + 1)));
        }
        i = i + 1;
    }
    proof {
        assert(rv.take(rv.len() as int) == rv);
    }
    let pad: usize = if content.len() % 4 == 0 {
        0
    } else {
        4 - content.len() % 4
    };
    assert(content@.len() == 4 + exth_entries(rv).len());
    push_repeat(&mut content, 0, pad);
    let mut exth: Vec<u8> = vec![69u8, 88, 84, 72];
    push_be32(&mut exth, 12 + content.len() as u32);
    append_bytes(&mut exth, content.as_slice());
    proof {
        assert(Seq::new(pad as nat, |_i: int| 0u8) == zeros(pad as nat));
        assert(exth@ =~= exth_block(rv));
    }
    exth
}

/// The records before the cover: authors, publisher, description,
/// subjects, date, contributors, rights and the source identifier.
pub open spec fn head_recs(md: Metadata) -> Seq<(u32, Seq<u8>)> {
    str_recs(100, md.authors@) + opt_rec(101, md.publisher) + opt_rec(103, md.description) + str_recs(
        105,
        md.subjects@,
    ) + opt_rec(106, md.date) + str_recs(108, md.contributors@) + opt_rec(109, md.rights) + seq![
        (112u32, source_id(md)),
    ]
}

/// The records before the cover.
fn push_head_recs(recs: &mut Vec<(u32, Vec<u8>)>, md: &Metadata)
    ensures
        rec_views(final(recs)@) == rec_views(old(recs)@) + head_recs(*md),
{
    push_str_recs(recs, 100, &md.authors);
    push_opt_rec(recs, 101, &md.publisher);
    push_opt_rec(recs, 103, &md.description);
    push_str_recs(recs, 105, &md.subjects);
    push_opt_rec(recs, 106, &md.date);
    push_str_recs(recs, 108, &md.contributors);
    push_opt_rec(recs, 109, &md.rights);
    let mut sid: Vec<u8> = if md.identifier.as_str().is_empty() {
        vec![98u8, 111, 107, 111, 58]
    } else {
        vec![99u8, 97, 108, 105, 98, 114, 101, 58]
    };
    let tail = if md.identifier.as_str().is_empty() {
        string_bytes(&md.title)
    } else {
        string_bytes(&md.identifier)
    };
    append_bytes(&mut sid, tail.as_slice());
    proof {
        assert(sid@ =~= source_id(*md));
    }
    push_rec(recs, 112, sid);
    proof {
        assert(rec_views(final(recs)@) =~= rec_views(old(recs)@) + head_recs(*md));
    }
}

/// A record holding the big-endian bytes of `v`.
fn push_u32_rec(recs: &mut Vec<(u32, Vec<u8>)>, code: u32, v: u32)
    ensures
        rec_views(final(recs)@) == rec_views(old(recs)@).push((code, be32(v))),
{
    let mut d: Vec<u8> = Vec::new();
    push_be32(&mut d, v);
    push_rec(recs, code, d);
}

/// The cover records.
fn push_cover_recs(recs: &mut Vec<(u32, Vec<u8>)>, cover: &Option<String>, image_hrefs: &Vec<String>)
    ensures
        rec_views(final(recs)@) == rec_views(old(recs)@) + cover_recs(*cover, image_hrefs@),
{
    match cover {
        Some(c) => match position_of(image_hrefs, c) {
            Some(idx) => {
                let off = #[verifier::truncate] (idx as u32);
                push_u32_rec(recs, 201, off);
                push_u32_rec(recs, 203, 0);
                push_u32_rec(recs, 202, off);
                let mut uri: Vec<u8> = vec![107u8, 105, 110, 100, 108, 101, 58, 101, 109, 98, 101, 100, 58];
                let digits = write_base32(off as usize, 4);
                append_bytes(&mut uri, digits.as_slice());
                push_rec(recs, 129, uri);
                proof {
                    let i = first_href_index(image_hrefs@, c@).unwrap();
                    assert(i == idx as int);
                    assert(uri@ == embed_prefix() + base32_fixed((i as u32) as nat, 4));
                    assert(cover_recs(*cover, image_hrefs@) == seq![
                        (201u32, be32(off)),
                        (203u32, be32(0)),
                        (202u32, be32(off)),
                        (129u32, uri@),
                    ]);
                    assert(rec_views(final(recs)@) =~= rec_views(old(recs)@) + cover_recs(*cover, image_hrefs@));
                }
            },
            None => {
                proof {
                    assert(rec_views(recs@) =~= rec_views(old(recs)@) + cover_recs(*cover, image_hrefs@));
                }
            },
        },
        None => {
            proof {
                assert(rec_views(recs@) =~= rec_views(old(recs)@) + cover_recs(*cover, image_hrefs@));
            }
        },
    }
}

/// The records that follow the cover.
fn push_tail_recs(recs: &mut Vec<(u32, Vec<u8>)>, md: &Metadata, n_resources: usize)
    requires
        n_resources <= u32::MAX,
    ensures
        rec_views(final(recs)@) == rec_views(old(recs)@) + tail_recs(*md, n_resources as nat),
{
    push_rec(recs, 503, string_bytes(&md.title));
    push_rec(recs, 113, vec![69u8, 66, 79, 75, 48, 48, 48, 48, 48, 48]);
    push_rec(recs, 501, vec![69u8, 66, 79, 75]);
    let ghost mid = rec_views(recs@);
    if !md.language.as_str().is_empty() {
        let lang = crate::text::chars_of(md.language.as_str());
        let primary = match crate::text::find_char(&lang, '-') {
            Some(i) => crate::text::chars_to(&lang, i),
            None => lang,
        };
        let ps = crate::text::string_of(&primary);
        push_rec(recs, 524, string_bytes(&ps));
    }
    proof {
        assert(rec_views(recs@) =~= mid + lang_recs(md.language@));
    }
    push_u32_rec(recs, 125, n_resources as u32);
    push_u32_rec(recs, 131, 0);
    push_u32_rec(recs, 204, 201);
    push_u32_rec(recs, 205, 2);
    push_u32_rec(recs, 206, 9);
    push_u32_rec(recs, 207, 0);
    push_rec(recs, 535, vec![48u8, 55, 51, 48, 45, 56, 57, 48, 97, 100, 99, 50]);
    push_rec(recs, 528, vec![116u8, 114, 117, 101]);
    proof {
        assert(rec_views(final(recs)@) =~= rec_views(old(recs)@) + tail_recs(*md, n_resources as nat));
    }
}

impl Kf8Builder {
    /// Build the EXTH block: authors, publisher, description, subjects,
    /// date, contributors, rights, source identifier, cover and thumbnail,
    /// title, ASIN placeholder, document type, language, resource count and
    /// the KF8 housekeeping and creator fields that Kindle expects.
    pub fn build_exth(&self) -> (r: Vec<u8>)
        requires
            exth_entries(exth_list(self.metadata, self.image_hrefs@, self.font_hrefs@.len())).len() + 32
                <= u32::MAX,
            self.image_hrefs@.len() + self.font_hrefs@.len() <= u32::MAX,
        ensures
            r@ == exth_block(exth_list(self.metadata, self.image_hrefs@, self.font_hrefs@.len())),
    {
        let mut recs: Vec<(u32, Vec<u8>)> = Vec::new();
        push_head_recs(&mut recs, &self.metadata);
        push_cover_recs(&mut recs, &self.metadata.cover_image, &self.image_hrefs);
        push_tail_recs(&mut recs, &self.metadata, self.image_hrefs.len() + self.font_hrefs.len());
        proof {
            assert(rec_views(recs@) =~= exth_list(self.metadata, self.image_hrefs@, self.font_hrefs@.len()));
        }
        exth_from_records(&recs)
    }
}

/// `n` bytes of `0xFF`.
pub open spec fn ffs(n: nat) -> Seq<u8> {
    Seq::new(n, |_i: int| 0xFFu8)
}

/// The PalmDOC header: PalmDOC compression, text length, number of text
/// records, record size, no encryption.
pub open spec fn palmdoc_header(text_length: nat, last_text_record: u16) -> Seq<u8> {
    be16(2) + seq![0u8, 0] + be32(text_length as u32) + be16(last_text_record) + be16(4096) + be16(0)
        + be16(0)
}

/// The first part of the MOBI header: identity, encoding, unique id,
/// version, meta indices, first non-text record, title location, language,
/// dictionary languages, minimum version, first resource record, Huffman
/// records and EXTH flags.
pub open spec fn mobi_header_start(b: Kf8Builder, uid: u32, title_offset: u32, title_len: u32) -> Seq<u8> {
    seq![77u8, 79, 66, 73] + be32(264) + be32(2) + be32(65001) + be32(uid) + be32(8) + ffs(40) + be32(b.first_non_text_record as u32) + be32(title_offset) + be32(title_len) + be32(9)
        + be32(0) + be32(0) + be32(8) + be32(b.first_resource_record) + zeros(16) + be32(0x50)
}

/// The second part of the MOBI header: reserved bytes, DRM, the FDST, FCIS
/// and FLIS records, SRCS, the extra data flags and the KF8 indices.
pub open spec fn mobi_header_end(b: Kf8Builder) -> Seq<u8> {
    let n = b.records@.len();
    zeros(32) + be32(NULL_INDEX) + be32(NULL_INDEX) + be32(0) + be32(0) + be32(0) + zeros(8) + be32(
        (n - 4) as u32,
    ) + be32((1 + b.css_flows@.len()) as u32) + be32((n - 2) as u32) + be32(1) + be32((n - 3) as u32)
        + be32(1) + zeros(8) + be32(NULL_INDEX) + be32(0) + ffs(8) + be32(
        if b.ncx_entries@.len() == 0 {
            1
        } else {
            3
        },
    ) + be32(b.ncx_index) + be32(b.frag_index) + be32(b.skel_index) + be32(NULL_INDEX) + be32(
        b.guide_index,
    ) + ffs(4) + zeros(4) + ffs(4) + zeros(4)
}

/// Record 0: PalmDOC header, MOBI header, EXTH block, the title, and 8 KiB
/// of zero padding.
pub open spec fn record0_bytes(b: Kf8Builder, uid: u32, exth: Seq<u8>) -> Seq<u8> {
    let title = utf8(b.metadata.title@);
    let title_offset = (280 + exth.len()) as u32;
    palmdoc_header(b.text_length as nat, b.last_text_record) + mobi_header_start(
        b,
        uid,
        title_offset,
        title.len() as u32,
    ) + mobi_header_end(b) + exth + title + zeros(8192)
}

/// Append the first part of the MOBI header.
fn push_mobi_header_start(out: &mut Vec<u8>, b: &Kf8Builder, uid: u32, title_offset: u32, title_len: u32)
    ensures
        final(out)@ == old(out)@ + mobi_header_start(*b, uid, title_offset, title_len),
{
    let mut h: Vec<u8> = vec![77u8, 79, 66, 73];
    push_be32(&mut h, 264);
    push_be32(&mut h, 2);
    push_be32(&mut h, 65001);
    push_be32(&mut h, uid);
    push_be32(&mut h, 8);
    push_repeat(&mut h, 0xFF, 40);
    push_be32(&mut h, b.first_non_text_record as u32);
    push_be32(&mut h, title_offset);
    push_be32(&mut h, title_len);
    push_be32(&mut h, 9);
    push_be32(&mut h, 0);
    push_be32(&mut h, 0);
    push_be32(&mut h, 8);
    push_be32(&mut h, b.first_resource_record);
    push_repeat(&mut h, 0, 16);
    push_be32(&mut h, 0x50);
    proof {
        assert(Seq::new(40, |_i: int| 0xFFu8) =~= ffs(40));
        assert(Seq::new(16, |_i: int| 0u8) =~= zeros(16));
        assert(h@ =~= mobi_header_start(*b, uid, title_offset, title_len));
    }
    append_bytes(out, h.as_slice());
}

/// Append the second part of the MOBI header.
fn push_mobi_header_end(out: &mut Vec<u8>, b: &Kf8Builder)
    requires
        b.records@.len() >= 4,
        b.css_flows@.len() < u32::MAX,
    ensures
        final(out)@ == old(out)@ + mobi_header_end(*b),
{
    let n = b.records.len();
    let mut h: Vec<u8> = Vec::new();
    push_repeat(&mut h, 0, 32);
    push_be32(&mut h, NULL_INDEX);
    push_be32(&mut h, NULL_INDEX);
    push_be32(&mut h, 0);
    push_be32(&mut h, 0);
    push_be32(&mut h, 0);
    push_repeat(&mut h, 0, 8);
    push_be32(&mut h, #[verifier::truncate] ((n - 4) as u32));
    push_be32(&mut h, 1 + b.css_flows.len() as u32);
    push_be32(&mut h, #[verifier::truncate] ((n - 2) as u32));
    push_be32(&mut h, 1);
    push_be32(&mut h, #[verifier::truncate] ((n - 3) as u32));
    push_be32(&mut h, 1);
    push_repeat(&mut h, 0, 8);
    push_be32(&mut h, NULL_INDEX);
    push_be32(&mut h, 0);
    push_repeat(&mut h, 0xFF, 8);
    let extra_data_flags: u32 = if b.ncx_entries.len() == 0 {
        1
    } else {
        3
    };
    push_be32(&mut h, extra_data_flags);
    push_be32(&mut h, b.ncx_index);
    push_be32(&mut h, b.frag_index);
    push_be32(&mut h, b.skel_index);
    push_be32(&mut h, NULL_INDEX);
    push_be32(&mut h, b.guide_index);
    push_repeat(&mut h, 0xFF, 4);
    push_repeat(&mut h, 0, 4);
    push_repeat(&mut h, 0xFF, 4);
    push_repeat(&mut h, 0, 4);
    proof {
        assert(Seq::new(32, |_i: int| 0u8) =~= zeros(32));
        assert(Seq::new(8, |_i: int| 0u8) =~= zeros(8));
        assert(Seq::new(4, |_i: int| 0u8) =~= zeros(4));
        assert(Seq::new(8, |_i: int| 0xFFu8) =~= ffs(8));
        assert(Seq::new(4, |_i: int| 0xFFu8) =~= ffs(4));
        assert(h@ =~= mobi_header_end(*b));
    }
    append_bytes(out, h.as_slice());
}

impl Kf8Builder {
    /// Build record 0 (PalmDOC header, MOBI header, EXTH block, title and
    /// padding) in place of the placeholder; `time_seed` seeds the book's
    /// unique id.
    pub fn build_record0(&mut self, time_seed: u64)
        requires
            old(self).records@.len() >= 4,
            old(self).css_flows@.len() < u32::MAX,
            exth_entries(exth_list(old(self).metadata, old(self).image_hrefs@, old(self).font_hrefs@.len())).len()
                + 600 <= u32::MAX,
            old(self).image_hrefs@.len() + old(self).font_hrefs@.len() <= u32::MAX,
        ensures
            final(self).records@ == old(self).records@.update(0, final(self).records@[0]),
            final(self).records@[0]@ == record0_bytes(
                *old(self),
                rand_uid_spec(time_seed),
                exth_block(exth_list(old(self).metadata, old(self).image_hrefs@, old(self).font_hrefs@.len())),
            ),
            same_but_records(*old(self), *final(self)),
    {
        let exth = self.build_exth();
        let title_bytes = string_bytes(&self.metadata.title);
        proof {
            lemma_exth_block_len(exth_list(self.metadata, self.image_hrefs@, self.font_hrefs@.len()));
        }
        let title_offset: u32 = 280 + exth.len() as u32;
        let uid = rand_uid(time_seed);
        let mut record0: Vec<u8> = Vec::new();
        push_be16(&mut record0, 2);
        record0.push(0);
        record0.push(0);
        push_be32(&mut record0, self.text_length as u32);
        push_be16(&mut record0, self.last_text_record);
        push_be16(&mut record0, 4096);
        push_be16(&mut record0, 0);
        push_be16(&mut record0, 0);
        proof {
            assert(record0@ =~= palmdoc_header(self.text_length as nat, self.last_text_record));
        }
        push_mobi_header_start(&mut record0, self, uid, title_offset, #[verifier::truncate] (title_bytes.len() as u32));
        push_mobi_header_end(&mut record0, self);
        append_bytes(&mut record0, exth.as_slice());
        append_bytes(&mut record0, title_bytes.as_slice());
        push_repeat(&mut record0, 0, 8192);
        proof {
            assert(Seq::new(8192, |_i: int| 0u8) =~= zeros(8192));
            assert(record0@ =~= record0_bytes(*old(self), uid, exth@));
        }
        self.records.set(0, record0);
    }
}

/// The EXTH block is as long as its records, the count, the header and at
/// most three bytes of padding.
proof fn lemma_exth_block_len(recs: Seq<(u32, Seq<u8>)>)
    ensures
        exth_block(recs).len() <= exth_entries(recs).len() + 19,
{
}

/// The unique id derived from a time seed.
pub open spec fn rand_uid_spec(seed: u64) -> u32 {
    (((seed as u32) as int * 1103515245 + 12345) % 0x1_0000_0000) as u32
}

/// The records laid end to end.
pub open spec fn concat_records(rs: Seq<Vec<u8>>) -> Seq<u8>
    decreases rs.len(),
{
    if rs.len() == 0 {
        Seq::empty()
    } else {
        concat_records(rs.drop_last()) + rs.last()@
    }
}

/// The record list of the PalmDB header: for each record, its offset in the
/// file and its unique id `2 * i` (attribute byte zero).
pub open spec fn record_infos(rs: Seq<Vec<u8>>, base: nat) -> Seq<u8>
    decreases rs.len(),
{
    if rs.len() == 0 {
        Seq::empty()
    } else {
        let i = (rs.len() - 1) as nat;
        record_infos(rs.drop_last(), base) + be32((base + concat_records(rs.drop_last()).len()) as u32)
            + seq![0u8] + be32((2 * i) as u32).subrange(1, 4)
    }
}

/// The 32-byte database name: at most 31 bytes of the name, zero padded.
pub open spec fn pdb_name(name: Seq<u8>) -> Seq<u8> {
    let n = if name.len() < 31 {
        name.len()
    } else {
        31
    };
    name.take(n as int) + zeros((32 - n) as nat)
}

/// The PalmDB file: header (name, attributes, creation and modification
/// times, type and creator `BOOKMOBI`, unique id seed, record count), the
/// record list, a two-byte gap, and the records.
pub open spec fn pdb_bytes(b: Kf8Builder, now: u32) -> Seq<u8> {
    let n = b.records@.len();
    pdb_name(utf8(crate::anchors::sanitized(b.metadata.title@))) + be16(0) + be16(0) + be32(now) + be32(now)
        + zeros(16) + seq![66u8, 79, 79, 75, 77, 79, 66, 73] + be32((2 * n - 1) as u32) + be32(0) + be16(
        n as u16,
    ) + record_infos(b.records@, 78 + 8 * n + 2) + seq![0u8, 0] + concat_records(b.records@)
}

/// Total size of the records.
proof fn lemma_concat_prefix_len(rs: Seq<Vec<u8>>, i: int)
    requires
        0 <= i <= rs.len(),
    ensures
        concat_records(rs.take(i)).len() <= concat_records(rs).len(),
    decreases rs.len(),
{
    if i < rs.len() {
        assert(rs.drop_last().take(i) == rs.take(i));
        lemma_concat_prefix_len(rs.drop_last(), i);
    } else {
        assert(rs.take(i) == rs);
    }
}

impl Kf8Builder {
    /// Write the book as a PalmDB file to `out`; `now` is the creation and
    /// modification time stamp. Record offsets are written as 32-bit
    /// numbers (cut to their low 32 bits); the file itself must fit in
    /// memory.
    pub fn write(&self, out: &mut Vec<u8>, now: u32)
        requires
            self.records@.len() >= 1,
            78 + 8 * self.records@.len() + 2 + concat_records(self.records@).len() <= usize::MAX,
        ensures
            final(out)@ == old(out)@ + pdb_bytes(*self, now),
    {
        let n = self.records.len();
        let ghost rs = self.records@;
        let title = crate::anchors::sanitize_title(self.metadata.title.as_str());
        let tb = string_bytes(&title);
        let copy_len: usize = if tb.len() < 31 {
            tb.len()
        } else {
            31
        };
        let mut head: Vec<u8> = bytes_to_vec(vstd::slice::slice_subrange(tb.as_slice(), 0, copy_len));
        push_repeat(&mut head, 0, 32 - copy_len);
        proof {
            assert(Seq::new((32 - copy_len) as nat, |_i: int| 0u8) =~= zeros((32 - copy_len) as nat));
            assert(head@ =~= pdb_name(tb@));
        }
        push_be16(&mut head, 0);
        push_be16(&mut head, 0);
        push_be32(&mut head, now);
        push_be32(&mut head, now);
        push_repeat(&mut head, 0, 16);
        append_bytes(&mut head, vec![66u8, 79, 79, 75, 77, 79, 66, 73].as_slice());
        push_be32(&mut head, (2 * n - 1) as u32);
        push_be32(&mut head, 0);
        push_be16(&mut head, #[verifier::truncate] (n as u16));
        let base: usize = 78 + 8 * n + 2;
        let ghost start = head@;
        let mut offset: usize = base;
        let mut i: usize = 0;
        while i < n
            invariant
                0 <= i <= n,
                n == rs.len(),
                rs == self.records@,
                base == 78 + 8 * n + 2,
                78 + 8 * n + 2 + concat_records(rs).len() <= usize::MAX,
                offset == base + concat_records(rs.take(i as int)).len(),
                head@ == start + record_infos(rs.take(i as int), base as nat),
            decreases n - i,
        {
            proof {
                assert(rs.take(i + 1).drop_last() == rs.take(i as int));
                assert(rs.take(i + 1).last() == rs[i as int]);
                lemma_concat_prefix_len(rs, i + 1);
            }
            push_be32(&mut head, #[verifier::truncate] (offset as u32));
            let id: u32 = (2 * i) as u32;
            head.push(0);
            head.push(((id / 0x1_0000) % 256) as u8);
            head.push(((id / 256) % 256) as u8);
            head.push((id % 256) as u8);
            proof {
                assert(be32(id).subrange(1, 4) =~= seq![((id / 0x1_0000) % 256) as u8, ((id / 256) % 256) as u8, (id % 256) as u8]);
                assert(head@ =~= start + record_infos(rs.take(i + 1), base as nat));
            }
            offset = offset + self.records[i].len();
            i = i + 1;
        }
        proof {
            assert(rs.take(n as int) == rs);
        }
        head.push(0);
        head.push(0);
        let ghost before = head@;
        let mut j: usize = 0;
        while j < n
            invariant
                0 <= j <= n,
                n == rs.len(),
                rs == self.records@,
                head@ == before + concat_records(rs.take(j as int)),
            decreases n - j,
        {
            proof {
                assert(rs.take(j + 1).drop_last() == rs.take(j as int));
                assert(rs.take(j + 1).last() == rs[j as int]);
            }
            append_bytes(&mut head, self.records[j].as_slice());
            proof {
                assert(head@ =~= before + concat_records(rs.take(j + 1)));
            }
            j = j + 1;
        }
        proof {
            assert(rs.take(n as int) == rs);
            assert(Seq::new(16, |_i: int| 0u8) =~= zeros(16));
            assert(head@ =~= pdb_bytes(*self, now));
        }
        append_bytes(out, head.as_slice());
    }
}

/// What zlib compression (flate2, level 6) makes of the bytes `data`:
/// the zlib stream, or `None` where the compressor reports an error.
pub uninterp spec fn zlib_compressed(data: Seq<u8>) -> Option<Seq<u8>>;

/// flate2's `ZlibEncoder::new` (level 6) over a `Vec`, `write_all` of
/// `data`, then `finish`. The outcome is a function of `data` alone
/// (no clock, chance or environment enters it), named `zlib_compressed`:
/// the stream when both calls succeed, `None` when either reports an error.
#[verifier::external_body]
fn zlib_compress(data: &[u8]) -> (r: Option<Vec<u8>>)
    ensures
        r is Some <==> zlib_compressed(data@) is Some,
        r matches Some(c) ==> zlib_compressed(data@) == Some(c@),
{
    let mut encoder = flate2::write::ZlibEncoder::new(Vec::new(), flate2::Compression::new(6));
    if std::io::Write::write_all(&mut encoder, data).is_err() {
        return None;
    }
    encoder.finish().ok()
}

/// Number of compressed bytes that are obfuscated.
pub const XOR_PREFIX_LEN: usize = 1040;

/// Length of the obfuscation key.
pub const XOR_KEY_LEN: usize = 20;

/// Byte `i` of the obfuscation key derived from `seed` (a 64-bit linear
/// congruential step, bits 33 to 40).
pub open spec fn xor_key_byte(seed: u64, i: nat) -> u8 {
    let x1 = (seed + i) % 0x1_0000_0000_0000_0000;
    let x2 = (x1 * 6364136223846793005) % 0x1_0000_0000_0000_0000;
    let x3 = (x2 + 1442695040888963407) % 0x1_0000_0000_0000_0000;
    ((x3 / 0x2_0000_0000) % 256) as u8
}

/// The obfuscation key.
pub open spec fn xor_key(seed: u64) -> Seq<u8> {
    Seq::new(20, |i: int| xor_key_byte(seed, i as nat))
}

/// The compressed bytes with their first 1040 bytes XORed with the key.
pub open spec fn obfuscated(c: Seq<u8>, key: Seq<u8>) -> Seq<u8> {
    Seq::new(c.len(), |i: int| if i < 1040 { c[i] ^ key[i % 20] } else { c[i] })
}

/// A FONT record: `FONT`, the uncompressed size, the flags (1: zlib, 2:
/// obfuscated), the data start, the key length and the key start, then the
/// key and the data. Data of at least 1040 compressed bytes is obfuscated.
pub open spec fn font_record(data_len: nat, compressed: Seq<u8>, seed: u64) -> Seq<u8> {
    if compressed.len() >= 1040 {
        seq![70u8, 79, 78, 84] + be32(data_len as u32) + be32(3) + be32(44) + be32(20) + be32(24) + xor_key(
            seed,
        ) + obfuscated(compressed, xor_key(seed))
    } else {
        seq![70u8, 79, 78, 84] + be32(data_len as u32) + be32(1) + be32(24) + be32(0) + be32(24)
            + compressed
    }
}

/// Assemble the FONT record of font data of `data_len` bytes whose zlib
/// stream is `compressed`; `time_seed` seeds the obfuscation key.
pub fn assemble_font_record(data_len: usize, compressed: Vec<u8>, time_seed: u64) -> (r: Vec<u8>)
    ensures
        r@ == font_record(data_len as nat, compressed@, time_seed),
{
    let mut c = compressed;
    let mut key: Vec<u8> = Vec::new();
    let mut flags: u32 = 1;
    if c.len() >= XOR_PREFIX_LEN {
        flags = 3;
        let mut i: usize = 0;
        while i < XOR_KEY_LEN
            invariant
                0 <= i <= 20,
                key@ =~= xor_key(time_seed).take(i as int),
            decreases 20 - i,
        {
            let x = time_seed.wrapping_add(i as u64).wrapping_mul(6364136223846793005).wrapping_add(1442695040888963407);
            key.push(((x / 8589934592) % 256) as u8);
            proof {
                assert(key@ =~= xor_key(time_seed).take(i + 1));
            }
            i = i + 1;
        }
        let ghost c0 = c@;
        let mut j: usize = 0;
        while j < XOR_PREFIX_LEN
            invariant
                0 <= j <= 1040,
                c0.len() >= 1040,
                key@ == xor_key(time_seed),
                c@.len() == c0.len(),
                forall|k: int| 0 <= k < j ==> c@[k] == c0[k] ^ key@[k % 20],
                forall|k: int| j <= k < c0.len() ==> c@[k] == c0[k],
            decreases 1040 - j,
        {
            let b = c[j] ^ key[j % XOR_KEY_LEN];
            c.set(j, b);
            j = j + 1;
        }
        proof {
            assert(c@ =~= obfuscated(c0, xor_key(time_seed)));
        }
    }
    let mut record: Vec<u8> = vec![70u8, 79, 78, 84];
    push_be32(&mut record, #[verifier::truncate] (data_len as u32));
    push_be32(&mut record, flags);
    push_be32(&mut record, 24 + key.len() as u32);
    push_be32(&mut record, key.len() as u32);
    push_be32(&mut record, 24);
    append_bytes(&mut record, key.as_slice());
    append_bytes(&mut record, c.as_slice());
    proof {
        assert(record@ =~= font_record(data_len as nat, compressed@, time_seed));
    }
    record
}

/// Create a FONT record from raw font data: zlib-compress it, obfuscate
/// large streams with a key seeded by `time_seed`, and prefix the header.
/// `None` exactly when the compressor reports an error.
pub fn write_font_record(data: &[u8], time_seed: u64) -> (r: Option<Vec<u8>>)
    ensures
        r is Some <==> zlib_compressed(data@) is Some,
        r matches Some(rec) ==> rec@ == font_record(data@.len(), zlib_compressed(data@)->0, time_seed),
{
    match zlib_compress(data) {
        Some(compressed) => Some(assemble_font_record(data.len(), compressed, time_seed)),
        None => None,
    }
}

/// The byte lengths of the first `k` CSS flows add up step by step.
proof fn lemma_css_total_prefix(css: Seq<String>, k: int)
    requires
        0 < k <= css.len(),
    ensures
        css_total(css.take(k)) == css_total(css.take(k - 1)) + utf8(css[k - 1]@).len(),
        css_total(css.take(k)) <= css_total(css),
    decreases css.len() - k,
{
    assert(css.take(k).drop_last() == css.take(k - 1));
    if k < css.len() {
        lemma_css_total_prefix(css, k + 1);
    } else {
        assert(css.take(k) == css);
    }
}

/// The unique id that record 0 carries, from a time-based seed: one step of
/// the classic linear congruential generator.
pub fn rand_uid(seed: u64) -> (r: u32)
    ensures
        r == ((seed as u32) as int * 1103515245 + 12345) % 0x1_0000_0000,
        r == rand_uid_spec(seed),
{
    let s = seed as u32;
    let r = s.wrapping_mul(1103515245).wrapping_add(12345);
    proof {
        assert((s as int * 1103515245) % 0x1_0000_0000 + 12345 <= 0x1_0000_0000 * 2);
        vstd::arithmetic::div_mod::lemma_add_mod_noop(s as int * 1103515245, 12345, 0x1_0000_0000);
    }
    r
}


/// Law: a reader recovers the zlib stream from a FONT record by XORing the
/// first 1040 bytes after the key with the 20-byte key stored at offset 24;
/// a stream shorter than 1040 bytes is stored as it is, right after the
/// header. The flags say which.
pub proof fn law_font_record_recoverable(data_len: nat, c: Seq<u8>, seed: u64)
    ensures
        font_record(data_len, c, seed).subrange(0, 4) == seq![70u8, 79, 78, 84],
        font_record(data_len, c, seed).subrange(4, 8) == be32(data_len as u32),
        c.len() >= 1040 ==> {
            let r = font_record(data_len, c, seed);
            let key = r.subrange(24, 44);
            &&& r.subrange(8, 12) == be32(3)
            &&& r.len() == 44 + c.len()
            &&& forall|i: int|
                0 <= i < c.len() ==> (if i < 1040 {
                    r[44 + i] ^ key[i % 20]
                } else {
                    r[44 + i]
                }) == #[trigger] c[i]
        },
        c.len() < 1040 ==> {
            let r = font_record(data_len, c, seed);
            &&& r.subrange(8, 12) == be32(1)
            &&& r.subrange(24, r.len() as int) == c
        },
{
    let r = font_record(data_len, c, seed);
    if c.len() >= 1040 {
        let key = xor_key(seed);
        assert(r.subrange(24, 44) =~= key);
        assert forall|i: int| 0 <= i < c.len() implies (if i < 1040 {
            r[44 + i] ^ r.subrange(24, 44)[i % 20]
        } else {
            r[44 + i]
        }) == #[trigger] c[i] by {
            assert(r[44 + i] == obfuscated(c, key)[i]);
            if i < 1040 {
                let a = c[i];
                let k = key[i % 20];
                assert((a ^ k) ^ k == a) by (bit_vector);
            }
        }
        assert(r.subrange(8, 12) =~= be32(3));
    } else {
        assert(r.subrange(8, 12) =~= be32(1));
        assert(r.subrange(24, r.len() as int) =~= c);
    }
    assert(r.subrange(0, 4) =~= seq![70u8, 79, 78, 84]);
    assert(r.subrange(4, 8) =~= be32(data_len as u32));
}

/// Law: record 0's title offset and length fields locate the book title in
/// the record, right after the EXTH block, which itself follows the 280
/// bytes of the PalmDOC and MOBI headers; 8 KiB of padding close the record.
#[verifier::spinoff_prover]
#[verifier::rlimit(40)]
pub proof fn law_record0_title_location(b: Kf8Builder, uid: u32, exth: Seq<u8>)
    ensures
        ({
            let r = record0_bytes(b, uid, exth);
            let t = utf8(b.metadata.title@);
            let off = 280 + exth.len() as int;
            &&& r.len() == off + t.len() + 8192
            &&& r.subrange(84, 88) == be32(off as u32)
            &&& r.subrange(88, 92) == be32(t.len() as u32)
            &&& r.subrange(280, off) == exth
            &&& r.subrange(off, off + t.len() as int) == t
        }),
{
    let r = record0_bytes(b, uid, exth);
    let t = utf8(b.metadata.title@);
    let off = 280 + exth.len() as int;
    let ph = palmdoc_header(b.text_length as nat, b.last_text_record);
    let ms = mobi_header_start(b, uid, off as u32, t.len() as u32);
    let me = mobi_header_end(b);
    assert(ph.len() == 16);
    assert(ms.len() == 116);
    assert(me.len() == 148);
    assert(r == ph + ms + me + exth + t + zeros(8192));
    assert(r.subrange(84, 88) =~= ms.subrange(68, 72));
    assert(ms.subrange(68, 72) =~= be32(off as u32));
    assert(r.subrange(88, 92) =~= ms.subrange(72, 76));
    assert(ms.subrange(72, 76) =~= be32(t.len() as u32));
    assert(r.subrange(280, off) =~= exth);
    assert(r.subrange(off, off + t.len() as int) =~= t);
}


/// The record list has eight bytes per record.
proof fn lemma_infos_len(rs: Seq<Vec<u8>>, base: nat)
    ensures
        record_infos(rs, base).len() == 8 * rs.len(),
    decreases rs.len(),
{
    if rs.len() > 0 {
        lemma_infos_len(rs.drop_last(), base);
    }
}

/// The `i`-th entry of the record list holds the offset of record `i`.
proof fn lemma_infos_at(rs: Seq<Vec<u8>>, base: nat, i: int)
    requires
        0 <= i < rs.len(),
    ensures
        record_infos(rs, base).subrange(8 * i, 8 * i + 4) == be32((base + concat_records(rs.take(i)).len()) as u32),
    decreases rs.len(),
{
    let prev = rs.drop_last();
    lemma_infos_len(prev, base);
    if i == rs.len() - 1 {
        assert(prev == rs.take(i));
        assert(record_infos(rs, base).subrange(8 * i, 8 * i + 4) =~= be32(
            (base + concat_records(prev).len()) as u32,
        ));
    } else {
        lemma_infos_at(prev, base, i);
        assert(prev.take(i) == rs.take(i));
        assert(record_infos(rs, base).subrange(8 * i, 8 * i + 4) =~= record_infos(prev, base).subrange(
            8 * i,
            8 * i + 4,
        ));
    }
}

/// Record `i` follows the records before it.
proof fn lemma_concat_at(rs: Seq<Vec<u8>>, i: int)
    requires
        0 <= i < rs.len(),
    ensures
        concat_records(rs.take(i)).len() + rs[i]@.len() <= concat_records(rs).len(),
        concat_records(rs).subrange(
            concat_records(rs.take(i)).len() as int,
            concat_records(rs.take(i)).len() + rs[i]@.len() as int,
        ) == rs[i]@,
    decreases rs.len(),
{
    let prev = rs.drop_last();
    if i == rs.len() - 1 {
        assert(prev == rs.take(i));
        assert(concat_records(rs).subrange(
            concat_records(prev).len() as int,
            concat_records(prev).len() + rs[i]@.len() as int,
        ) =~= rs[i]@);
    } else {
        lemma_concat_at(prev, i);
        assert(prev.take(i) == rs.take(i));
        assert(prev[i] == rs[i]);
        let a = concat_records(rs.take(i)).len() as int;
        assert(concat_records(rs).subrange(a, a + rs[i]@.len() as int) =~= concat_records(prev).subrange(
            a,
            a + rs[i]@.len() as int,
        ));
    }
}

/// Law: in the PalmDB file, the `i`-th entry of the record list gives the
/// offset at which record `i` starts, and the record's bytes are found there.
pub proof fn law_pdb_record_offsets(b: Kf8Builder, now: u32, i: int)
    requires
        0 <= i < b.records@.len(),
    ensures
        ({
            let f = pdb_bytes(b, now);
            let n = b.records@.len();
            let off = 78 + 8 * n + 2 + concat_records(b.records@.take(i)).len() as int;
            &&& f.subrange(78 + 8 * i, 78 + 8 * i + 4) == be32(off as u32)
            &&& f.subrange(off, off + b.records@[i]@.len() as int) == b.records@[i]@
        }),
{
    let rs = b.records@;
    let n = rs.len();
    let base = (78 + 8 * n + 2) as nat;
    let name = pdb_name(utf8(crate::anchors::sanitized(b.metadata.title@)));
    let head = name + be16(0) + be16(0) + be32(now) + be32(now) + zeros(16) + seq![66u8, 79, 79, 75, 77, 79, 66, 73]
        + be32((2 * n - 1) as u32) + be32(0) + be16(n as u16);
    assert(name.len() == 32);
    assert(head.len() == 78);
    let infos = record_infos(rs, base);
    lemma_infos_len(rs, base);
    lemma_infos_at(rs, base, i);
    lemma_concat_at(rs, i);
    let f = pdb_bytes(b, now);
    assert(f == head + infos + seq![0u8, 0] + concat_records(rs));
    assert(f.subrange(78 + 8 * i, 78 + 8 * i + 4) =~= infos.subrange(8 * i, 8 * i + 4));
    let c = concat_records(rs.take(i)).len() as int;
    assert(f.subrange(base + c, base + c + rs[i]@.len() as int) =~= concat_records(rs).subrange(
        c,
        c + rs[i]@.len() as int,
    ));
}


/// Law: record 0 declares trailing byte sequences (extra data flags 3) exactly
/// when the book has NCX entries, which is when `apply_trailing_byte_sequences`
/// appends them; otherwise only the multibyte indicator (flag 1).
pub proof fn law_record0_extra_flags(b: Kf8Builder, uid: u32, exth: Seq<u8>)
    ensures
        record0_bytes(b, uid, exth).subrange(240, 244) == be32(
            if b.ncx_entries@.len() == 0 {
                1
            } else {
                3
            },
        ),
{
    let t = utf8(b.metadata.title@);
    let off = 280 + exth.len() as int;
    let ph = palmdoc_header(b.text_length as nat, b.last_text_record);
    let ms = mobi_header_start(b, uid, off as u32, t.len() as u32);
    let me = mobi_header_end(b);
    assert(ph.len() == 16);
    assert(ms.len() == 116);
    assert(me.len() == 148);
    let r = record0_bytes(b, uid, exth);
    assert(r == ph + ms + me + exth + t + zeros(8192));
    assert(r.subrange(240, 244) =~= me.subrange(108, 112));
    assert(me.subrange(108, 112) =~= be32(if b.ncx_entries@.len() == 0 { 1 } else { 3 }));
}


/// Each record of the list shows up, encoded, in the EXTH entries.
proof fn lemma_entry_at(recs: Seq<(u32, Seq<u8>)>, i: int) -> (k: int)
    requires
        0 <= i < recs.len(),
    ensures
        0 <= k,
        k + exth_record(recs[i].0, recs[i].1).len() <= exth_entries(recs).len(),
        exth_entries(recs).subrange(k, k + exth_record(recs[i].0, recs[i].1).len()) == exth_record(recs[i].0, recs[i].1),
    decreases recs.len(),
{
    let d = recs.drop_last();
    let r = exth_record(recs[i].0, recs[i].1);
    assert(exth_entries(recs) == exth_entries(d) + exth_record(recs.last().0, recs.last().1));
    if i == recs.len() - 1 {
        let k = exth_entries(d).len() as int;
        assert(exth_entries(recs).subrange(k, k + r.len()) =~= r);
        k
    } else {
        let k = lemma_entry_at(d, i);
        assert(d[i] == recs[i]);
        assert(exth_entries(recs).subrange(k, k + r.len()) =~= exth_entries(d).subrange(k, k + r.len()));
        k
    }
}

/// The EXTH bytes `block` hold a record of type `code` with data `data`:
/// the code and the record length (eight header bytes plus the data), both
/// big-endian, then the data.
pub open spec fn exth_holds(block: Seq<u8>, code: u32, data: Seq<u8>) -> bool {
    let r = be32(code) + be32((8 + data.len()) as u32) + data;
    exists|k: int| 0 <= k && k + r.len() <= block.len() && #[trigger] block.subrange(k, k + r.len()) == r
}

/// Every record of the list is held by the EXTH block.
proof fn lemma_block_holds(recs: Seq<(u32, Seq<u8>)>, i: int)
    requires
        0 <= i < recs.len(),
    ensures
        exth_holds(exth_block(recs), recs[i].0, recs[i].1),
{
    let k = lemma_entry_at(recs, i);
    let r = exth_record(recs[i].0, recs[i].1);
    let content = be32(recs.len() as u32) + exth_entries(recs);
    let padded = content + zeros(pad4(content.len()));
    let block = exth_block(recs);
    assert(block == seq![69u8, 88, 84, 72] + be32((12 + padded.len()) as u32) + padded);
    let k2 = 12 + k;
    assert(block.subrange(k2, k2 + r.len()) =~= exth_entries(recs).subrange(k, k + r.len()));
    assert(block.subrange(k2, k2 + r.len()) == r);
}

/// Law: the EXTH block that `build_exth` makes holds the book's metadata:
/// a record 100 for each author, 101 for the publisher, 103 for the
/// description, 105 for each subject, 106 for the date, 108 for each
/// contributor, 109 for the rights and 503 for the title, each with the
/// value's UTF-8 bytes.
#[verifier::rlimit(60)]
pub proof fn law_exth_holds_metadata(md: Metadata, image_hrefs: Seq<String>, n_fonts: nat)
    ensures
        ({
            let block = exth_block(exth_list(md, image_hrefs, n_fonts));
            &&& forall|j: int| 0 <= j < md.authors@.len() ==> exth_holds(block, 100, utf8(#[trigger] md.authors@[j]@))
            &&& md.publisher is Some ==> exth_holds(block, 101, utf8(md.publisher->0@))
            &&& md.description is Some ==> exth_holds(block, 103, utf8(md.description->0@))
            &&& forall|j: int| 0 <= j < md.subjects@.len() ==> exth_holds(block, 105, utf8(#[trigger] md.subjects@[j]@))
            &&& md.date is Some ==> exth_holds(block, 106, utf8(md.date->0@))
            &&& forall|j: int|
                0 <= j < md.contributors@.len() ==> exth_holds(block, 108, utf8(#[trigger] md.contributors@[j]@))
            &&& md.rights is Some ==> exth_holds(block, 109, utf8(md.rights->0@))
            &&& exth_holds(block, 503, utf8(md.title@))
        }),
{
    let recs = exth_list(md, image_hrefs, n_fonts);
    let h = head_recs(md);
    let g1 = str_recs(100, md.authors@);
    let g2 = g1 + opt_rec(101, md.publisher);
    let g3 = g2 + opt_rec(103, md.description);
    let g4 = g3 + str_recs(105, md.subjects@);
    let g5 = g4 + opt_rec(106, md.date);
    let g6 = g5 + str_recs(108, md.contributors@);
    let g7 = g6 + opt_rec(109, md.rights);
    assert(h == g7 + seq![(112u32, source_id(md))]);
    assert(recs == h + cover_recs(md.cover_image, image_hrefs) + tail_recs(md, image_hrefs.len() + n_fonts));
    assert forall|i: int| 0 <= i < g7.len() implies recs[i] == #[trigger] g7[i] by {
        assert(h[i] == g7[i]);
    }
    assert forall|j: int| 0 <= j < md.authors@.len() implies exth_holds(
        exth_block(recs),
        100,
        utf8(#[trigger] md.authors@[j]@),
    ) by {
        assert(g7[j] == g1[j]);
        lemma_block_holds(recs, j);
    }
    if md.publisher is Some {
        let i = g1.len() as int;
        assert(g7[i] == g2[i]);
        lemma_block_holds(recs, i);
    }
    if md.description is Some {
        let i = g2.len() as int;
        assert(g7[i] == g3[i]);
        lemma_block_holds(recs, i);
    }
    assert forall|j: int| 0 <= j < md.subjects@.len() implies exth_holds(
        exth_block(recs),
        105,
        utf8(#[trigger] md.subjects@[j]@),
    ) by {
        let i = g3.len() + j;
        assert(g7[i] == g4[i]);
        lemma_block_holds(recs, i);
    }
    if md.date is Some {
        let i = g4.len() as int;
        assert(g7[i] == g5[i]);
        lemma_block_holds(recs, i);
    }
    assert forall|j: int| 0 <= j < md.contributors@.len() implies exth_holds(
        exth_block(recs),
        108,
        utf8(#[trigger] md.contributors@[j]@),
    ) by {
        let i = g5.len() + j;
        assert(g7[i] == g6[i]);
        lemma_block_holds(recs, i);
    }
    if md.rights is Some {
        let i = g6.len() as int;
        assert(g7[i] == g7[i]);
        lemma_block_holds(recs, i);
    }
    let it: int = h.len() + cover_recs(md.cover_image, image_hrefs).len() as int;
    assert(recs[it] == (503u32, utf8(md.title@)));
    lemma_block_holds(recs, it);
}

} // verus!
