//! The AZW3 (KF8) exporter's configuration, and the book content it
//! collects before building records.

use vstd::prelude::*;
use crate::strmap::StrMap;
use crate::kf8::{
    Metadata, Kf8Builder, same_but_records, css_total, exth_entries, exth_list, exth_block, fdst_bytes,
    flis_bytes, fcis_bytes, eof_bytes, record0_bytes, rand_uid_spec,
};
use crate::resources::{Resource, guess_media_type, guessed_media_type, rec_bytes, image_records, font_records, fonts_compress};
use crate::toc::TocEntry;
use crate::guide::Landmark;

verus! {

/// Configuration for AZW3 export.
#[derive(Debug, Clone, Copy)]
pub struct Azw3Config {
    /// If true, normalize content through the IR pipeline for clean,
    /// consistent output. Default is false (passthrough mode preserves the
    /// source HTML/CSS).
    pub normalize: bool,
}

impl Default for Azw3Config {
    fn default() -> (r: Self)
        ensures
            !r.normalize,
    {
        Azw3Config { normalize: false }
    }
}

/// AZW3/KF8 format exporter: creates KF8 files for modern Kindle devices.
pub struct Azw3Exporter {
    config: Azw3Config,
}

impl Azw3Exporter {
    /// The exporter's configuration.
    pub closed spec fn config_view(self) -> Azw3Config {
        self.config
    }

    /// Create a new exporter with the default configuration.
    pub fn new() -> (r: Self)
        ensures
            !r.config_view().normalize,
    {
        Azw3Exporter { config: Azw3Config::default() }
    }

    /// Configure the exporter with custom settings.
    pub fn with_config(self, config: Azw3Config) -> (r: Self)
        ensures
            r.config_view() == config,
    {
        let mut s = self;
        s.config = config;
        s
    }

    /// Whether content is normalized before export.
    pub fn normalize(&self) -> (r: bool)
        ensures
            r == self.config_view().normalize,
    {
        self.config.normalize
    }
}

impl Default for Azw3Exporter {
    fn default() -> (r: Self)
        ensures
            !r.config_view().normalize,
    {
        Self::new()
    }
}

/// A spine item: its href and its bytes.
pub struct SpineItem {
    pub href: String,
    pub data: Vec<u8>,
}

/// The book content collected for the KF8 builder.
pub struct BookContext {
    /// Href to resource (bytes and media type).
    pub resources: StrMap<Resource>,
    /// The spine items, in reading order.
    pub spine: Vec<SpineItem>,
    pub toc: Vec<TocEntry>,
    pub metadata: Metadata,
    /// Landmarks, for the K8 guide index.
    pub landmarks: Vec<Landmark>,
}

/// A resource as plain values.
pub open spec fn res_view(r: Option<Resource>) -> Option<(Seq<u8>, Seq<char>)> {
    match r {
        Some(x) => Some((x.data@, x.media_type@)),
        None => None,
    }
}

/// The bytes of the last asset at path `k`.
pub open spec fn last_asset(assets: Seq<(String, Vec<u8>)>, k: Seq<char>) -> Option<Seq<u8>>
    decreases assets.len(),
{
    if assets.len() == 0 {
        None
    } else if assets.last().0@ == k {
        Some(assets.last().1@)
    } else {
        last_asset(assets.drop_last(), k)
    }
}

/// The href of a spine entry: its source id, or `unknown.xhtml`.
pub open spec fn spine_href(id: Option<String>) -> Seq<char> {
    match id {
        Some(s) => s@,
        None => "unknown.xhtml"@,
    }
}

/// The bytes of the first spine entry whose href is `k`.
pub open spec fn first_spine(spine: Seq<(Option<String>, Vec<u8>)>, k: Seq<char>) -> Option<Seq<u8>>
    decreases spine.len(),
{
    if spine.len() == 0 {
        None
    } else if spine_href(spine[0].0) == k {
        Some(spine[0].1@)
    } else {
        first_spine(spine.drop_first(), k)
    }
}

/// The resource at `k` of a passthrough book: the last asset at that path,
/// with the media type its extension suggests; else the first spine item
/// with that href, as XHTML.
pub open spec fn raw_resource(
    spine: Seq<(Option<String>, Vec<u8>)>,
    assets: Seq<(String, Vec<u8>)>,
    k: Seq<char>,
) -> Option<(Seq<u8>, Seq<char>)> {
    match last_asset(assets, k) {
        Some(d) => Some((d, guessed_media_type(k))),
        None => match first_spine(spine, k) {
            Some(d) => Some((d, "application/xhtml+xml"@)),
            None => None,
        },
    }
}

/// A copy of a byte vector.
fn copy_bytes(v: &Vec<u8>) -> (r: Vec<u8>)
    ensures
        r@ == v@,
{
    crate::kf8::bytes_to_vec(v.as_slice())
}

/// Whether the map has an entry for `k`.
fn has_key(m: &StrMap<Resource>, k: &String) -> (r: bool)
    ensures
        r == (m.lookup(k@) is Some),
{
    m.get(k.as_str()).is_some()
}

proof fn lemma_first_spine_step(spine: Seq<(Option<String>, Vec<u8>)>, i: int, k: Seq<char>)
    requires
        0 <= i < spine.len(),
    ensures
        first_spine(spine.take(i + 1), k) == match first_spine(spine.take(i), k) {
            Some(d) => Some(d),
            None => if spine_href(spine[i].0) == k {
                Some(spine[i].1@)
            } else {
                None
            },
        },
    decreases i,
{
    if i > 0 {
        assert(spine.take(i + 1).drop_first() == spine.drop_first().take(i));
        assert(spine.take(i).drop_first() == spine.drop_first().take(i - 1));
        assert(spine.take(i + 1)[0] == spine[0]);
        assert(spine.take(i)[0] == spine[0]);
        assert(spine.drop_first()[i - 1] == spine[i]);
        lemma_first_spine_step(spine.drop_first(), i - 1, k);
        if spine_href(spine[0].0) == k {
            assert(first_spine(spine.take(i + 1), k) == Some(spine[0].1@));
            assert(first_spine(spine.take(i), k) == Some(spine[0].1@));
        } else {
            assert(first_spine(spine.take(i + 1), k) == first_spine(spine.drop_first().take(i), k));
            assert(first_spine(spine.take(i), k) == first_spine(spine.drop_first().take(i - 1), k));
        }
    } else {
        assert(spine.take(1).drop_first() == Seq::<(Option<String>, Vec<u8>)>::empty());
        assert(spine.take(1)[0] == spine[0]);
        assert(first_spine(spine.take(0), k) is None);
        assert(first_spine(Seq::<(Option<String>, Vec<u8>)>::empty(), k) is None);
        if spine_href(spine[0].0) == k {
            assert(first_spine(spine.take(1), k) == Some(spine[0].1@));
        } else {
            assert(first_spine(spine.take(1), k) == first_spine(spine.take(1).drop_first(), k));
        }
    }
}

impl BookContext {
    /// The book's landmarks.
    pub fn landmarks(&self) -> (r: &Vec<Landmark>)
        ensures
            r == &self.landmarks,
    {
        &self.landmarks
    }

    /// Collect the passthrough content of a book: each spine entry (its
    /// source id, or `unknown.xhtml`, with its raw bytes), each asset (by
    /// path, with the media type its extension suggests), and each spine
    /// item that is not also an asset as an XHTML resource.
    pub fn from_raw(
        spine_entries: Vec<(Option<String>, Vec<u8>)>,
        assets: Vec<(String, Vec<u8>)>,
        toc: Vec<TocEntry>,
        metadata: Metadata,
        landmarks: Vec<Landmark>,
    ) -> (r: Self)
        ensures
            r.spine@.len() == spine_entries@.len(),
            forall|i: int|
                0 <= i < spine_entries@.len() ==> (#[trigger] r.spine@[i]).href@ == spine_href(spine_entries@[i].0)
                    && r.spine@[i].data@ == spine_entries@[i].1@,
            forall|k: Seq<char>| #[trigger] res_view(r.resources.lookup(k)) == raw_resource(spine_entries@, assets@, k),
            r.resources.keys_distinct(),
            r.toc == toc,
            r.metadata == metadata,
            r.landmarks == landmarks,
    {
        let mut spine: Vec<SpineItem> = Vec::new();
        let mut i: usize = 0;
        while i < spine_entries.len()
            invariant
                0 <= i <= spine_entries@.len(),
                spine@.len() == i,
                forall|j: int|
                    0 <= j < i ==> (#[trigger] spine@[j]).href@ == spine_href(spine_entries@[j].0) && spine@[j].data@
                        == spine_entries@[j].1@,
            decreases spine_entries@.len() - i,
        {
            let href = match &spine_entries[i].0 {
                Some(s) => s.clone(),
                None => "unknown.xhtml".to_owned(),
            };
            let data = copy_bytes(&spine_entries[i].1);
            spine.push(SpineItem { href, data });
            i = i + 1;
        }
        let mut resources: StrMap<Resource> = StrMap::new();
        let mut a: usize = 0;
        while a < assets.len()
            invariant
                0 <= a <= assets@.len(),
                resources.keys_distinct(),
                forall|k: Seq<char>|
                    #[trigger] res_view(resources.lookup(k)) == match last_asset(assets@.take(a as int), k) {
                        Some(d) => Some((d, guessed_media_type(k))),
                        None => None,
                    },
            decreases assets@.len() - a,
        {
            proof {
                assert(assets@.take(a + 1).drop_last() == assets@.take(a as int));
                assert(assets@.take(a + 1).last() == assets@[a as int]);
            }
            let path = assets[a].0.clone();
            let media_type = guess_media_type(path.as_str());
            let data = copy_bytes(&assets[a].1);
            resources.insert(path, Resource { data, media_type });
            a = a + 1;
        }
        proof {
            assert(assets@.take(assets@.len() as int) == assets@);
        }
        let mut s: usize = 0;
        while s < spine.len()
            invariant
                0 <= s <= spine@.len(),
                spine@.len() == spine_entries@.len(),
                forall|j: int|
                    0 <= j < spine@.len() ==> (#[trigger] spine@[j]).href@ == spine_href(spine_entries@[j].0) && spine@[j].data@
                        == spine_entries@[j].1@,
                resources.keys_distinct(),
                forall|k: Seq<char>|
                    #[trigger] res_view(resources.lookup(k)) == match last_asset(assets@, k) {
                        Some(d) => Some((d, guessed_media_type(k))),
                        None => match first_spine(spine_entries@.take(s as int), k) {
                            Some(d) => Some((d, "application/xhtml+xml"@)),
                            None => None,
                        },
                    },
            decreases spine@.len() - s,
        {
            let present = has_key(&resources, &spine[s].href);
            let ghost before = resources;
            let ghost h = spine@[s as int].href@;
            if !present {
                let href = spine[s].href.clone();
                let data = copy_bytes(&spine[s].data);
                resources.insert(href, Resource { data, media_type: "application/xhtml+xml".to_owned() });
            }
            proof {
                assert forall|k: Seq<char>|
                    #[trigger] res_view(resources.lookup(k)) == match last_asset(assets@, k) {
                        Some(d) => Some((d, guessed_media_type(k))),
                        None => match first_spine(spine_entries@.take(s + 1), k) {
                            Some(d) => Some((d, "application/xhtml+xml"@)),
                            None => None,
                        },
                    } by {
                    lemma_first_spine_step(spine_entries@, s as int, k);
                    assert(res_view(before.lookup(k)) == match last_asset(assets@, k) {
                        Some(d) => Some((d, guessed_media_type(k))),
                        None => match first_spine(spine_entries@.take(s as int), k) {
                            Some(d) => Some((d, "application/xhtml+xml"@)),
                            None => None,
                        },
                    });
                    if k == h && !present {
                        assert(res_view(before.lookup(h)) is None);
                    }
                }
            }
            s = s + 1;
        }
        proof {
            assert(spine_entries@.take(spine_entries@.len() as int) == spine_entries@);
        }
        BookContext { resources, spine, toc, metadata, landmarks }
    }
}


/// The href of the `i`-th normalized chapter: `chapter_<i>.xhtml`.
pub open spec fn chapter_href(i: nat) -> Seq<char> {
    seq!['c', 'h', 'a', 'p', 't', 'e', 'r', '_'] + crate::positions::decimal(i) + seq![
        '.',
        'x',
        'h',
        't',
        'm',
        'l',
    ]
}

/// The bytes of the last loaded asset at path `k`.
pub open spec fn last_loaded(assets: Seq<(String, Option<Vec<u8>>)>, k: Seq<char>) -> Option<Seq<u8>>
    decreases assets.len(),
{
    if assets.len() == 0 {
        None
    } else if assets.last().0@ == k && assets.last().1 is Some {
        Some(assets.last().1.unwrap()@)
    } else {
        last_loaded(assets.drop_last(), k)
    }
}

/// The text of the last of the first `n` chapters whose href is `k`.
pub open spec fn last_chapter(chapters: Seq<String>, n: int, k: Seq<char>) -> Option<Seq<u8>>
    decreases n,
{
    if n <= 0 {
        None
    } else if chapter_href((n - 1) as nat) == k {
        Some(crate::kf8::utf8(chapters[n - 1]@))
    } else {
        last_chapter(chapters, n - 1, k)
    }
}

/// The resource at `k` of a normalized book: a loaded asset, else a
/// chapter, else the unified style sheet `style.css` (when not empty).
pub open spec fn normalized_resource(
    css: Seq<char>,
    chapters: Seq<String>,
    assets: Seq<(String, Option<Vec<u8>>)>,
    k: Seq<char>,
) -> Option<(Seq<u8>, Seq<char>)> {
    match last_loaded(assets, k) {
        Some(d) => Some((d, guessed_media_type(k))),
        None => match last_chapter(chapters, chapters.len() as int, k) {
            Some(d) => Some((d, "application/xhtml+xml"@)),
            None => if css.len() > 0 && k == "style.css"@ {
                Some((crate::kf8::utf8(css), "text/css"@))
            } else {
                None
            },
        },
    }
}

/// The href of the `i`-th normalized chapter.
fn chapter_name(i: usize) -> (r: String)
    ensures
        r@ == chapter_href(i as nat),
{
    let mut s = "chapter_".to_owned();
    let digits = crate::text::chars_of(crate::positions::decimal_string(i as u64).as_str());
    proof {
        reveal_strlit("chapter_");
    }
    let mut j: usize = 0;
    while j < digits.len()
        invariant
            0 <= j <= digits@.len(),
            s@ == seq!['c', 'h', 'a', 'p', 't', 'e', 'r', '_'] + digits@.take(j as int),
        decreases digits@.len() - j,
    {
        crate::text::push_char(&mut s, digits[j]);
        proof {
            assert(digits@.take(j + 1) == digits@.take(j as int).push(digits@[j as int]));
        }
        j = j + 1;
    }
    proof {
        assert(digits@.take(digits@.len() as int) == digits@);
    }
    crate::text::push_char(&mut s, '.');
    crate::text::push_char(&mut s, 'x');
    crate::text::push_char(&mut s, 'h');
    crate::text::push_char(&mut s, 't');
    crate::text::push_char(&mut s, 'm');
    crate::text::push_char(&mut s, 'l');
    proof {
        assert(s@ =~= chapter_href(i as nat));
    }
    s
}

impl BookContext {
    /// Collect normalized content: the unified style sheet as `style.css`
    /// (when not empty), each chapter as `chapter_<i>.xhtml` (spine item and
    /// XHTML resource), and each asset that could be loaded, by path, with
    /// the media type its extension suggests.
    pub fn from_normalized(
        css: String,
        chapters: Vec<String>,
        assets: Vec<(String, Option<Vec<u8>>)>,
        toc: Vec<TocEntry>,
        metadata: Metadata,
        landmarks: Vec<Landmark>,
    ) -> (r: Self)
        requires
            chapters@.len() <= u64::MAX,
        ensures
            r.spine@.len() == chapters@.len(),
            forall|i: int|
                0 <= i < chapters@.len() ==> (#[trigger] r.spine@[i]).href@ == chapter_href(i as nat)
                    && r.spine@[i].data@ == crate::kf8::utf8(chapters@[i]@),
            forall|k: Seq<char>|
                #[trigger] res_view(r.resources.lookup(k)) == normalized_resource(css@, chapters@, assets@, k),
            r.resources.keys_distinct(),
            r.toc == toc,
            r.metadata == metadata,
            r.landmarks == landmarks,
    {
        let mut resources: StrMap<Resource> = StrMap::new();
        if !css.as_str().is_empty() {
            let data = crate::kf8::bytes_to_vec(css.as_str().as_bytes());
            resources.insert("style.css".to_owned(), Resource { data, media_type: "text/css".to_owned() });
        }
        let ghost base = resources;
        let mut spine: Vec<SpineItem> = Vec::new();
        let mut i: usize = 0;
        while i < chapters.len()
            invariant
                0 <= i <= chapters@.len(),
                chapters@.len() <= u64::MAX,
                spine@.len() == i,
                forall|j: int|
                    0 <= j < i ==> (#[trigger] spine@[j]).href@ == chapter_href(j as nat) && spine@[j].data@
                        == crate::kf8::utf8(chapters@[j]@),
                resources.keys_distinct(),
                forall|k: Seq<char>|
                    #[trigger] res_view(resources.lookup(k)) == match last_chapter(chapters@, i as int, k) {
                        Some(d) => Some((d, "application/xhtml+xml"@)),
                        None => res_view(base.lookup(k)),
                    },
            decreases chapters@.len() - i,
        {
            let href = chapter_name(i);
            let data = crate::kf8::bytes_to_vec(chapters[i].as_str().as_bytes());
            let copy = crate::kf8::bytes_to_vec(data.as_slice());
            resources.insert(href.clone(), Resource { data: copy, media_type: "application/xhtml+xml".to_owned() });
            spine.push(SpineItem { href, data });
            i = i + 1;
        }
        let ghost mid = resources;
        let mut a: usize = 0;
        while a < assets.len()
            invariant
                0 <= a <= assets@.len(),
                resources.keys_distinct(),
                forall|k: Seq<char>|
                    #[trigger] res_view(resources.lookup(k)) == match last_loaded(assets@.take(a as int), k) {
                        Some(d) => Some((d, guessed_media_type(k))),
                        None => res_view(mid.lookup(k)),
                    },
            decreases assets@.len() - a,
        {
            proof {
                assert(assets@.take(a + 1).drop_last() == assets@.take(a as int));
                assert(assets@.take(a + 1).last() == assets@[a as int]);
            }
            match &assets[a].1 {
                Some(d) => {
                    let path = assets[a].0.clone();
                    let media_type = guess_media_type(path.as_str());
                    let data = copy_bytes(d);
                    resources.insert(path, Resource { data, media_type });
                },
                None => {},
            }
            a = a + 1;
        }
        proof {
            assert(assets@.take(assets@.len() as int) == assets@);
            assert forall|k: Seq<char>|
                #[trigger] res_view(resources.lookup(k)) == normalized_resource(css@, chapters@, assets@, k) by {
                reveal_strlit("style.css");
            }
        }
        BookContext { resources, spine, toc, metadata, landmarks }
    }
}


/// The HTML files of the spine: each spine item whose resource is XHTML,
/// with that resource's bytes, in reading order.
pub open spec fn html_files(spine: Seq<SpineItem>, res: StrMap<Resource>) -> Seq<(Seq<char>, Seq<u8>)>
    decreases spine.len(),
{
    if spine.len() == 0 {
        Seq::empty()
    } else {
        html_files(spine.drop_last(), res) + match res.lookup(spine.last().href@) {
            Some(r) => if r.media_type@ == "application/xhtml+xml"@ {
                seq![(spine.last().href@, r.data@)]
            } else {
                Seq::empty()
            },
            None => Seq::empty(),
        }
    }
}

impl BookContext {
    /// The HTML files to rewrite and chunk: each spine item whose resource
    /// is XHTML, with that resource's bytes.
    pub fn html_sources(&self) -> (r: Vec<(String, Vec<u8>)>)
        ensures
            r@.map_values(|x: (String, Vec<u8>)| (x.0@, x.1@)) == html_files(self.spine@, self.resources),
    {
        let mut out: Vec<(String, Vec<u8>)> = Vec::new();
        let mut i: usize = 0;
        let xhtml = "application/xhtml+xml".to_owned();
        while i < self.spine.len()
            invariant
                0 <= i <= self.spine@.len(),
                xhtml@ == "application/xhtml+xml"@,
                out@.map_values(|x: (String, Vec<u8>)| (x.0@, x.1@)) == html_files(self.spine@.take(i as int), self.resources),
            decreases self.spine@.len() - i,
        {
            proof {
                assert(self.spine@.take(i + 1).drop_last() == self.spine@.take(i as int));
                assert(self.spine@.take(i + 1).last() == self.spine@[i as int]);
            }
            let ghost before = out@;
            match self.resources.get(self.spine[i].href.as_str()) {
                Some(r) => {
                    if r.media_type == xhtml {
                        out.push((self.spine[i].href.clone(), copy_bytes(&r.data)));
                    }
                },
                None => {},
            }
            proof {
                assert(out@.map_values(|x: (String, Vec<u8>)| (x.0@, x.1@)) =~= html_files(self.spine@.take(i + 1), self.resources));
            }
            i = i + 1;
        }
        proof {
            assert(self.spine@.take(self.spine@.len() as int) == self.spine@);
        }
        out
    }
}


impl Kf8Builder {
    /// Complete the records once the text and index records are in place:
    /// the image and font records, the FDST record, the FLIS, FCIS and EOF
    /// records, and record 0 in place of its placeholder. `time_seed` seeds
    /// the font keys and the book's unique id. `false` exactly when
    /// compressing a font failed.
    pub fn finish_records(&mut self, resources: &StrMap<Resource>, time_seed: u64) -> (ok: bool)
        requires
            old(self).records@.len() >= 1,
            old(self).text_length + css_total(old(self).css_flows@) <= usize::MAX,
            old(self).css_flows@.len() + 1 < u32::MAX,
            exth_entries(exth_list(old(self).metadata, old(self).image_hrefs@, old(self).font_hrefs@.len())).len()
                + 600 <= u32::MAX,
            old(self).image_hrefs@.len() + old(self).font_hrefs@.len() <= u32::MAX,
        ensures
            ok <==> fonts_compress(*resources, old(self).font_hrefs@),
            final(self).first_resource_record == if old(self).image_hrefs@.len() > 0 || old(self).font_hrefs@.len() > 0 {
                old(self).records@.len() as u32
            } else {
                old(self).first_resource_record
            },
            ok ==> rec_bytes(final(self).records@) == (rec_bytes(old(self).records@) + image_records(
                *resources,
                old(self).image_hrefs@,
            ) + font_records(*resources, old(self).font_hrefs@, time_seed) + seq![
                fdst_bytes(old(self).text_length as nat, old(self).css_flows@),
                flis_bytes(),
                fcis_bytes(old(self).text_length as u32),
                eof_bytes(),
            ]).update(
                0,
                record0_bytes(
                    *final(self),
                    rand_uid_spec(time_seed),
                    exth_block(exth_list(old(self).metadata, old(self).image_hrefs@, old(self).font_hrefs@.len())),
                ),
            ),
            ok ==> same_but_records(
                Kf8Builder { first_resource_record: final(self).first_resource_record, ..*old(self) },
                *final(self),
            ),
    {
        let ghost r0 = rec_bytes(self.records@);
        if !self.write_resource_records(resources, time_seed) {
            return false;
        }
        let ghost r1 = rec_bytes(self.records@);
        self.build_fdst_record();
        let ghost r2 = self.records@;
        self.build_flis_fcis_eof();
        let ghost s3 = *self;
        proof {
            assert(rec_bytes(s3.records@) =~= r1 + seq![
                fdst_bytes(old(self).text_length as nat, old(self).css_flows@),
                flis_bytes(),
                fcis_bytes(old(self).text_length as u32),
                eof_bytes(),
            ]);
        }
        self.build_record0(time_seed);
        proof {
            assert(record0_bytes(s3, rand_uid_spec(time_seed), exth_block(exth_list(s3.metadata, s3.image_hrefs@, s3.font_hrefs@.len())))
                == record0_bytes(*self, rand_uid_spec(time_seed), exth_block(exth_list(s3.metadata, s3.image_hrefs@, s3.font_hrefs@.len()))));
            assert(rec_bytes(self.records@) =~= rec_bytes(s3.records@).update(
                0,
                record0_bytes(*self, rand_uid_spec(time_seed), exth_block(exth_list(s3.metadata, s3.image_hrefs@, s3.font_hrefs@.len()))),
            ));
        }
        true
    }
}


/// The content of a book as loaded for export.
pub enum BookContent {
    /// Passthrough content: each spine entry (source id, raw bytes) and each
    /// asset (path, bytes).
    Raw { spine: Vec<(Option<String>, Vec<u8>)>, assets: Vec<(String, Vec<u8>)> },
    /// Normalized content: the unified style sheet, the chapter documents,
    /// and the referenced assets (path, bytes when they could be loaded).
    Normalized { css: String, chapters: Vec<String>, referenced: Vec<(String, Option<Vec<u8>>)> },
}

/// `r` collects passthrough content.
pub open spec fn raw_context(
    r: BookContext,
    spine_entries: Seq<(Option<String>, Vec<u8>)>,
    assets: Seq<(String, Vec<u8>)>,
) -> bool {
    &&& r.spine@.len() == spine_entries.len()
    &&& forall|i: int|
        0 <= i < spine_entries.len() ==> (#[trigger] r.spine@[i]).href@ == spine_href(spine_entries[i].0)
            && r.spine@[i].data@ == spine_entries[i].1@
    &&& forall|k: Seq<char>| #[trigger] res_view(r.resources.lookup(k)) == raw_resource(spine_entries, assets, k)
    &&& r.resources.keys_distinct()
}

/// `r` collects normalized content.
pub open spec fn normalized_context(
    r: BookContext,
    css: Seq<char>,
    chapters: Seq<String>,
    assets: Seq<(String, Option<Vec<u8>>)>,
) -> bool {
    &&& r.spine@.len() == chapters.len()
    &&& forall|i: int|
        0 <= i < chapters.len() ==> (#[trigger] r.spine@[i]).href@ == chapter_href(i as nat) && r.spine@[i].data@
            == crate::kf8::utf8(chapters[i]@)
    &&& forall|k: Seq<char>| #[trigger] res_view(r.resources.lookup(k)) == normalized_resource(css, chapters, assets, k)
    &&& r.resources.keys_distinct()
}

impl BookContext {
    /// Collect a book's content: passthrough content as it is, or the
    /// content of the normalizing pipeline.
    pub fn from_book(content: BookContent, toc: Vec<TocEntry>, metadata: Metadata, landmarks: Vec<Landmark>) -> (r: Self)
        requires
            content matches BookContent::Normalized { chapters, .. } ==> chapters@.len() <= u64::MAX,
        ensures
            match content {
                BookContent::Raw { spine, assets } => raw_context(r, spine@, assets@),
                BookContent::Normalized { css, chapters, referenced } => normalized_context(r, css@, chapters@, referenced@),
            },
            r.toc == toc,
            r.metadata == metadata,
            r.landmarks == landmarks,
    {
        match content {
            BookContent::Raw { spine, assets } => Self::from_raw(spine, assets, toc, metadata, landmarks),
            BookContent::Normalized { css, chapters, referenced } => Self::from_normalized(
                css,
                chapters,
                referenced,
                toc,
                metadata,
                landmarks,
            ),
        }
    }
}

} // verus!
