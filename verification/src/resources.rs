//! The resources of a KF8 book: classifying them by media type, ordering
//! images and fonts into resource records, the CSS flows, and guessing a
//! media type from a file name.

use vstd::prelude::*;
use crate::strmap::{StrMap, lemma_lookup_at, lemma_lookup_some};
use crate::text::{chars_of, string_of, chars_eq, starts_with, lex_lt, lex_less, lemma_lex_total, lemma_lex_trans, lemma_lex_irreflexive};
use crate::kf8::{Kf8Builder, font_record, zlib_compressed, write_font_record, same_but_records};

verus! {

/// A resource of the book: its bytes and media type.
pub struct Resource {
    pub data: Vec<u8>,
    pub media_type: String,
}

/// The character sequences of strings.
pub open spec fn views(v: Seq<String>) -> Seq<Seq<char>> {
    v.map_values(|s: String| s@)
}

/// In strictly increasing order (as `String`s compare).
pub open spec fn strictly_lex_sorted(s: Seq<Seq<char>>) -> bool {
    forall|i: int, j: int| 0 <= i < j < s.len() ==> lex_lt(s[i], s[j])
}

/// No element occurs twice.
pub open spec fn no_dups(s: Seq<Seq<char>>) -> bool {
    forall|i: int, j: int| 0 <= i < s.len() && 0 <= j < s.len() && i != j ==> s[i] != s[j]
}

/// The media type names an image (`image/...`).
pub open spec fn is_image(m: Seq<char>) -> bool {
    m.len() >= 6 && m.take(6) == seq!['i', 'm', 'a', 'g', 'e', '/']
}

/// `m` contains the word `font`.
pub open spec fn has_font_word(m: Seq<char>) -> bool {
    exists|i: int| 0 <= i && i + 4 <= m.len() && #[trigger] m.subrange(i, i + 4) == seq!['f', 'o', 'n', 't']
}

/// The media type names a font: it contains `font`, or is
/// `application/vnd.ms-opentype` (the other font types that are listed,
/// `application/x-font-ttf`, `application/x-font-opentype`, `font/ttf`,
/// `font/otf` and `font/woff`, all contain `font`).
pub open spec fn is_font(m: Seq<char>) -> bool {
    has_font_word(m) || m == "application/vnd.ms-opentype"@
}

/// The media type of style sheets.
pub open spec fn is_css(m: Seq<char>) -> bool {
    m == "text/css"@
}

/// The resource at `k` is an image.
pub open spec fn image_key(res: StrMap<Resource>, k: Seq<char>) -> bool {
    res.lookup(k) matches Some(r) && is_image(r.media_type@)
}

/// The resource at `k` is a font.
pub open spec fn font_key(res: StrMap<Resource>, k: Seq<char>) -> bool {
    res.lookup(k) matches Some(r) && is_font(r.media_type@)
}

/// The resource at `k` is a style sheet.
pub open spec fn css_key(res: StrMap<Resource>, k: Seq<char>) -> bool {
    res.lookup(k) matches Some(r) && is_css(r.media_type@)
}

/// What `String::from_utf8_lossy` makes of the bytes `b`.
pub uninterp spec fn utf8_lossy(b: Seq<u8>) -> Seq<char>;

/// `String::from_utf8_lossy`, owned: the bytes as text, with each invalid
/// sequence replaced by U+FFFD. The contract states the result as
/// `utf8_lossy` of the bytes, and, for valid UTF-8, as the decoded text; the
/// replacement of invalid sequences is left unstated.
#[verifier::external_body]
pub(crate) fn lossy_text(b: &[u8]) -> (r: String)
    ensures
        r@ == utf8_lossy(b@),
        vstd::utf8::valid_utf8(b@) ==> r@ == vstd::utf8::decode_utf8(b@),
{
    String::from_utf8_lossy(b).into_owned()
}

/// Whether the media type names an image.
fn media_is_image(m: &String) -> (r: bool)
    ensures
        r == is_image(m@),
{
    let cs = chars_of(m.as_str());
    let p: [char; 6] = ['i', 'm', 'a', 'g', 'e', '/'];
    proof {
        assert(p@ == seq!['i', 'm', 'a', 'g', 'e', '/']);
    }
    starts_with(&cs, &p)
}

/// Whether the media type names a font.
fn media_is_font(m: &String) -> (r: bool)
    ensures
        r == is_font(m@),
{
    let cs = chars_of(m.as_str());
    let w: [char; 4] = ['f', 'o', 'n', 't'];
    proof {
        assert(w@ == seq!['f', 'o', 'n', 't']);
    }
    let mut i: usize = 0;
    while i <= cs.len() && 4 <= cs.len() - i
        invariant
            i <= cs@.len(),
            cs@ == m@,
            w@ == seq!['f', 'o', 'n', 't'],
            forall|j: int| 0 <= j < i && j + 4 <= cs@.len() ==> #[trigger] cs@.subrange(j, j + 4) != w@,
        decreases cs@.len() - i,
    {
        if cs[i] == 'f' && cs[i + 1] == 'o' && cs[i + 2] == 'n' && cs[i + 3] == 't' {
            proof {
                assert(cs@.subrange(i as int, i + 4) =~= w@);
            }
            return true;
        }
        proof {
            assert(cs@.subrange(i as int, i + 4) != w@) by {
                if cs@.subrange(i as int, i + 4) == w@ {
                    assert(cs@.subrange(i as int, i + 4)[0] == cs@[i as int]);
                    assert(cs@.subrange(i as int, i + 4)[1] == cs@[i + 1]);
                    assert(cs@.subrange(i as int, i + 4)[2] == cs@[i + 2]);
                    assert(cs@.subrange(i as int, i + 4)[3] == cs@[i + 3]);
                }
            }
        }
        i = i + 1;
    }
    proof {
        assert forall|j: int| 0 <= j && j + 4 <= m@.len() implies #[trigger] m@.subrange(j, j + 4) != seq!['f', 'o', 'n', 't'] by {
            assert(j < i);
        }
    }
    let other = "application/vnd.ms-opentype";
    *m == other.to_owned()
}

/// Whether the media type is that of style sheets.
fn media_is_css(m: &String) -> (r: bool)
    ensures
        r == is_css(m@),
{
    *m == "text/css".to_owned()
}

/// Sort strings that are pairwise different into increasing order.
pub(crate) fn sort_strings(v: Vec<String>) -> (r: Vec<String>)
    requires
        no_dups(views(v@)),
    ensures
        r@.len() == v@.len(),
        strictly_lex_sorted(views(r@)),
        forall|x: Seq<char>| views(r@).contains(x) <==> views(v@).contains(x),
{
    let mut out: Vec<String> = Vec::new();
    let mut i: usize = 0;
    while i < v.len()
        invariant
            0 <= i <= v@.len(),
            no_dups(views(v@)),
            out@.len() == i,
            strictly_lex_sorted(views(out@)),
            forall|x: Seq<char>| views(out@).contains(x) <==> views(v@.take(i as int)).contains(x),
        decreases v@.len() - i,
    {
        let e = v[i].clone();
        let key = chars_of(e.as_str());
        let ghost ev = e@;
        let mut k: usize = 0;
        let mut done = false;
        while !done && k < out.len()
            invariant
                0 <= k <= out@.len(),
                key@ == ev,
                forall|j: int| 0 <= j < k ==> lex_lt((#[trigger] views(out@)[j]), ev) || views(out@)[j] == ev,
                done ==> k < out@.len() && lex_lt(ev, views(out@)[k as int]),
            decreases out@.len() - k + (if done { 0int } else { 1int }),
        {
            let other = chars_of(out[k].as_str());
            if lex_less(&key, &other) {
                done = true;
            } else {
                proof {
                    if views(out@)[k as int] != ev {
                        lemma_lex_total(views(out@)[k as int], ev);
                    }
                }
                k = k + 1;
            }
        }
        let ghost before = views(out@);
        proof {
            assert forall|j: int| 0 <= j < before.len() implies before[j] != ev by {
                let pv = views(v@.take(i as int));
                assert(before.contains(before[j]));
                assert(pv.contains(before[j]));
                let t = choose|t: int| 0 <= t < pv.len() && pv[t] == before[j];
                assert(views(v@)[t] == before[j]);
                assert(views(v@)[i as int] == ev);
            }
        }
        out.insert(k, e);
        proof {
            let after = views(out@);
            assert(after == before.insert(k as int, ev));
            assert forall|a: int, b: int| 0 <= a < b < after.len() implies lex_lt(after[a], after[b]) by {
                if b < k {
                } else if b == k {
                    assert(after[a] == before[a]);
                    assert(before[a] != ev);
                } else if a < k {
                    assert(after[b] == before[b - 1]);
                    assert(before[a] != ev);
                    if k < before.len() {
                        lemma_lex_trans(before[a], ev, before[k as int]);
                        if b - 1 > k {
                            lemma_lex_trans(before[a], before[k as int], before[b - 1]);
                        }
                    }
                } else if a == k {
                    assert(after[b] == before[b - 1]);
                    if b - 1 > k {
                        lemma_lex_trans(ev, before[k as int], before[b - 1]);
                    }
                } else {
                    assert(after[a] == before[a - 1]);
                    assert(after[b] == before[b - 1]);
                }
            }
            assert(v@.take(i + 1) == v@.take(i as int).push(v@[i as int]));
            let pv = views(v@.take(i as int));
            let nv = views(v@.take(i + 1));
            assert(nv == pv.push(ev));
            assert forall|x: Seq<char>| after.contains(x) <==> nv.contains(x) by {
                if after.contains(x) {
                    let t = choose|t: int| 0 <= t < after.len() && after[t] == x;
                    if t == k {
                        assert(nv[i as int] == x);
                    } else {
                        let u = if t < k { t } else { t - 1 };
                        assert(before[u] == x);
                        assert(before.contains(x));
                        assert(pv.contains(x));
                        let w = choose|w: int| 0 <= w < pv.len() && pv[w] == x;
                        assert(nv[w] == x);
                    }
                }
                if nv.contains(x) {
                    let t = choose|t: int| 0 <= t < nv.len() && nv[t] == x;
                    if t < i {
                        assert(pv[t] == x);
                        assert(pv.contains(x));
                        assert(before.contains(x));
                        let u = choose|u: int| 0 <= u < before.len() && before[u] == x;
                        if u < k {
                            assert(after[u] == x);
                        } else {
                            assert(after[u + 1] == x);
                        }
                    } else {
                        assert(after[k as int] == x);
                    }
                }
            }
        }
        i = i + 1;
    }
    proof {
        assert(v@.take(v@.len() as int) == v@);
    }
    out
}

/// The media-type classes of `collect_resources`.
pub open spec fn kind_key(res: StrMap<Resource>, kind: int, k: Seq<char>) -> bool {
    if kind == 0 {
        image_key(res, k)
    } else if kind == 1 {
        font_key(res, k)
    } else {
        css_key(res, k)
    }
}

/// The hrefs of the resources of one kind (0: images, 1: fonts, 2: CSS), in
/// increasing order.
fn sorted_hrefs(resources: &StrMap<Resource>, kind: u8) -> (r: Vec<String>)
    requires
        resources.keys_distinct(),
        kind <= 2,
    ensures
        strictly_lex_sorted(views(r@)),
        forall|k: Seq<char>| #[trigger] views(r@).contains(k) <==> kind_key(*resources, kind as int, k),
        r@.len() <= resources.entries@.len(),
{
    let mut found: Vec<String> = Vec::new();
    let mut i: usize = 0;
    let ghost e = resources.entries@;
    while i < resources.entries.len()
        invariant
            0 <= i <= e.len(),
            e == resources.entries@,
            resources.keys_distinct(),
            kind <= 2,
            found@.len() <= i,
            forall|a: int| 0 <= a < found@.len() ==> exists|b: int| 0 <= b < i && #[trigger] views(found@)[a] == e[b].0@,
            no_dups(views(found@)),
            forall|k: Seq<char>|
                views(found@).contains(k) <==> exists|b: int|
                    0 <= b < i && (#[trigger] e[b]).0@ == k && kind_key(*resources, kind as int, k),
        decreases e.len() - i,
    {
        let m = &resources.entries[i].1.media_type;
        let keep = if kind == 0 {
            media_is_image(m)
        } else if kind == 1 {
            media_is_font(m)
        } else {
            media_is_css(m)
        };
        proof {
            lemma_lookup_at(*resources, i as int);
        }
        let ghost before = views(found@);
        if keep {
            let h = resources.entries[i].0.clone();
            found.push(h);
            proof {
                assert(views(found@) == before.push(e[i as int].0@));
                assert forall|a: int, c: int| 0 <= a < views(found@).len() && 0 <= c < views(found@).len() && a != c implies views(found@)[a] != views(found@)[c] by {
                    if a < before.len() && c < before.len() {
                    } else if a == before.len() {
                        let b = choose|b: int| 0 <= b < i && #[trigger] views(found@)[c] == e[b].0@;
                        assert(views(found@)[c] == before[c]);
                        assert(e[b].0@ != e[i as int].0@);
                    } else {
                        let b = choose|b: int| 0 <= b < i && #[trigger] views(found@)[a] == e[b].0@;
                        assert(views(found@)[a] == before[a]);
                        assert(e[b].0@ != e[i as int].0@);
                    }
                }
                assert forall|a: int| 0 <= a < found@.len() implies exists|b: int| 0 <= b < i + 1 && #[trigger] views(found@)[a] == e[b].0@ by {
                    if a < before.len() {
                        let b = choose|b: int| 0 <= b < i && #[trigger] before[a] == e[b].0@;
                        assert(views(found@)[a] == e[b].0@);
                    } else {
                        assert(views(found@)[a] == e[i as int].0@);
                    }
                }
                assert forall|k: Seq<char>| views(found@).contains(k) <==> exists|b: int|
                    0 <= b < i + 1 && (#[trigger] e[b]).0@ == k && kind_key(*resources, kind as int, k) by {
                    if views(found@).contains(k) {
                        let t = choose|t: int| 0 <= t < views(found@).len() && views(found@)[t] == k;
                        if t < before.len() {
                            assert(before.contains(k));
                        } else {
                            assert(e[i as int].0@ == k);
                        }
                    }
                    if exists|b: int| 0 <= b < i + 1 && (#[trigger] e[b]).0@ == k && kind_key(*resources, kind as int, k) {
                        let b = choose|b: int| 0 <= b < i + 1 && (#[trigger] e[b]).0@ == k && kind_key(*resources, kind as int, k);
                        if b < i {
                            assert(before.contains(k));
                            let t = choose|t: int| 0 <= t < before.len() && before[t] == k;
                            assert(views(found@)[t] == k);
                        } else {
                            assert(views(found@)[before.len() as int] == k);
                        }
                    }
                }
            }
        } else {
            proof {
                assert forall|k: Seq<char>| views(found@).contains(k) <==> exists|b: int|
                    0 <= b < i + 1 && (#[trigger] e[b]).0@ == k && kind_key(*resources, kind as int, k) by {
                    if exists|b: int| 0 <= b < i + 1 && (#[trigger] e[b]).0@ == k && kind_key(*resources, kind as int, k) {
                        let b = choose|b: int| 0 <= b < i + 1 && (#[trigger] e[b]).0@ == k && kind_key(*resources, kind as int, k);
                        if b == i {
                            assert(!kind_key(*resources, kind as int, k));
                        }
                    }
                }
                assert forall|a: int| 0 <= a < found@.len() implies exists|b: int| 0 <= b < i + 1 && #[trigger] views(found@)[a] == e[b].0@ by {
                    let b = choose|b: int| 0 <= b < i && #[trigger] views(found@)[a] == e[b].0@;
                }
            }
        }
        i = i + 1;
    }
    proof {
        assert forall|k: Seq<char>| views(found@).contains(k) <==> kind_key(*resources, kind as int, k) by {
            if kind_key(*resources, kind as int, k) {
                lemma_lookup_some(e, k);
            }
        }
    }
    sort_strings(found)
}


/// The hrefs of the style sheets, in increasing order.
pub fn sorted_css_hrefs(resources: &StrMap<Resource>) -> (r: Vec<String>)
    requires
        resources.keys_distinct(),
    ensures
        strictly_lex_sorted(views(r@)),
        forall|k: Seq<char>| #[trigger] views(r@).contains(k) <==> css_key(*resources, k),
        r@.len() <= resources.entries@.len(),
{
    sorted_hrefs(resources, 2)
}

/// The position of `k` among distinct strings.
pub open spec fn index_in(s: Seq<Seq<char>>, k: Seq<char>) -> int {
    choose|i: int| 0 <= i < s.len() && s[i] == k
}

/// The resource record number of `k`: images first (from 1), then fonts; a
/// later entry for the same href wins.
pub open spec fn resource_number(
    imgs: Seq<Seq<char>>,
    fonts: Seq<Seq<char>>,
    prior: Option<usize>,
    k: Seq<char>,
) -> Option<usize> {
    if fonts.contains(k) {
        Some((imgs.len() + index_in(fonts, k) + 1) as usize)
    } else if imgs.contains(k) {
        Some((index_in(imgs, k) + 1) as usize)
    } else {
        prior
    }
}

/// The CSS flows of the style sheets at `hrefs`.
pub open spec fn css_texts(res: StrMap<Resource>, hrefs: Seq<Seq<char>>) -> Seq<Seq<char>> {
    hrefs.map_values(|h: Seq<char>| utf8_lossy(res.lookup(h).unwrap().data@))
}

/// Distinct and strictly sorted sequences have unique positions.
pub(crate) proof fn lemma_sorted_index(s: Seq<Seq<char>>, i: int)
    requires
        strictly_lex_sorted(s),
        0 <= i < s.len(),
    ensures
        index_in(s, s[i]) == i,
{
    assert(s.contains(s[i]));
    let j = index_in(s, s[i]);
    assert(0 <= j < s.len() && s[j] == s[i]);
    if j < i {
        lemma_lex_irreflexive(s[i]);
    } else if j > i {
        lemma_lex_irreflexive(s[i]);
    }
}

impl Kf8Builder {
    /// Collect the resources: the image and font hrefs in increasing order,
    /// the text of the style sheets (in increasing order of href) as CSS
    /// flows, and the resource record numbers, images first from 1, then
    /// fonts.
    pub fn collect_resources(&mut self, resources: &StrMap<Resource>)
        requires
            resources.keys_distinct(),
            old(self).resource_map.keys_distinct(),
            resources.entries@.len() * 2 < usize::MAX,
        ensures
            strictly_lex_sorted(views(final(self).image_hrefs@)),
            forall|k: Seq<char>| views(final(self).image_hrefs@).contains(k) <==> image_key(*resources, k),
            strictly_lex_sorted(views(final(self).font_hrefs@)),
            forall|k: Seq<char>| views(final(self).font_hrefs@).contains(k) <==> font_key(*resources, k),
            exists|h: Seq<Seq<char>>|
                strictly_lex_sorted(h) && (forall|k: Seq<char>| h.contains(k) <==> css_key(*resources, k))
                    && views(final(self).css_flows@) == views(old(self).css_flows@) + css_texts(*resources, h),
            forall|k: Seq<char>|
                #[trigger] final(self).resource_map.lookup(k) == resource_number(
                    views(final(self).image_hrefs@),
                    views(final(self).font_hrefs@),
                    old(self).resource_map.lookup(k),
                    k,
                ),
            final(self).resource_map.keys_distinct(),
            final(self).records == old(self).records,
            final(self).metadata == old(self).metadata,
            final(self).ncx_entries == old(self).ncx_entries,
            final(self).text_length == old(self).text_length,
    {
        let imgs = sorted_hrefs(resources, 0);
        let fonts = sorted_hrefs(resources, 1);
        let css = sorted_hrefs(resources, 2);
        let ghost h = views(css@);
        let ghost old_css = views(self.css_flows@);
        let mut i: usize = 0;
        while i < css.len()
            invariant
                0 <= i <= css@.len(),
                h == views(css@),
                resources.keys_distinct(),
                forall|k: Seq<char>| h.contains(k) <==> css_key(*resources, k),
                views(self.css_flows@) == old_css + css_texts(*resources, h.take(i as int)),
                self.resource_map == old(self).resource_map,
                self.records == old(self).records,
                self.metadata == old(self).metadata,
                self.ncx_entries == old(self).ncx_entries,
                self.text_length == old(self).text_length,
            decreases css@.len() - i,
        {
            proof {
                assert(h.contains(h[i as int]));
            }
            match resources.get(css[i].as_str()) {
                Some(r) => {
                    let text = lossy_text(r.data.as_slice());
                    let ghost before = views(self.css_flows@);
                    self.css_flows.push(text);
                    proof {
                        assert(views(self.css_flows@) == before.push(text@));
                        assert(css_texts(*resources, h.take(i + 1)) =~= css_texts(*resources, h.take(i as int)).push(text@));
                    }
                },
                None => {},
            }
            i = i + 1;
        }
        proof {
            assert(h.take(h.len() as int) == h);
        }
        let ghost iv = views(imgs@);
        let ghost fv = views(fonts@);
        let ghost old_map = self.resource_map;
        let mut idx: usize = 1;
        let mut a: usize = 0;
        while a < imgs.len()
            invariant
                0 <= a <= imgs@.len(),
                iv == views(imgs@),
                strictly_lex_sorted(iv),
                idx == a + 1,
                imgs@.len() <= resources.entries@.len(),
                resources.entries@.len() * 2 < usize::MAX,
                views(self.css_flows@) == old_css + css_texts(*resources, h),
                self.records == old(self).records,
                self.metadata == old(self).metadata,
                self.ncx_entries == old(self).ncx_entries,
                self.text_length == old(self).text_length,
                self.resource_map.keys_distinct(),
                forall|k: Seq<char>|
                    #[trigger] self.resource_map.lookup(k) == if iv.take(a as int).contains(k) {
                        Some((index_in(iv, k) + 1) as usize)
                    } else {
                        old_map.lookup(k)
                    },
            decreases imgs@.len() - a,
        {
            proof {
                lemma_sorted_index(iv, a as int);
            }
            self.resource_map.insert(imgs[a].clone(), idx);
            proof {
                assert forall|k: Seq<char>|
                    #[trigger] self.resource_map.lookup(k) == if iv.take(a + 1).contains(k) {
                        Some((index_in(iv, k) + 1) as usize)
                    } else {
                        old_map.lookup(k)
                    } by {
                    if iv.take(a + 1).contains(k) && k != iv[a as int] {
                        let s1 = iv.take(a + 1);
                        let t = choose|t: int| 0 <= t < a + 1 && s1[t] == k;
                        assert(iv.take(a as int)[t] == k);
                    }
                    if iv.take(a as int).contains(k) {
                        let s0 = iv.take(a as int);
                        let t = choose|t: int| 0 <= t < a && s0[t] == k;
                        assert(iv.take(a + 1)[t] == k);
                    }
                    if k == iv[a as int] {
                        assert(iv.take(a + 1)[a as int] == k);
                    }
                }
            }
            idx = idx + 1;
            a = a + 1;
        }
        proof {
            assert(iv.take(iv.len() as int) == iv);
            assert(self.resource_map.keys_distinct());
        }
        let ghost mid_map = self.resource_map;
        let mut f: usize = 0;
        while f < fonts.len()
            invariant
                0 <= f <= fonts@.len(),
                fv == views(fonts@),
                strictly_lex_sorted(fv),
                idx == iv.len() + f + 1,
                iv.len() <= resources.entries@.len(),
                fonts@.len() <= resources.entries@.len(),
                resources.entries@.len() * 2 < usize::MAX,
                views(self.css_flows@) == old_css + css_texts(*resources, h),
                self.records == old(self).records,
                self.metadata == old(self).metadata,
                self.ncx_entries == old(self).ncx_entries,
                self.text_length == old(self).text_length,
                self.resource_map.keys_distinct(),
                forall|k: Seq<char>|
                    #[trigger] self.resource_map.lookup(k) == if fv.take(f as int).contains(k) {
                        Some((iv.len() + index_in(fv, k) + 1) as usize)
                    } else {
                        mid_map.lookup(k)
                    },
            decreases fonts@.len() - f,
        {
            proof {
                lemma_sorted_index(fv, f as int);
            }
            self.resource_map.insert(fonts[f].clone(), idx);
            proof {
                assert forall|k: Seq<char>|
                    #[trigger] self.resource_map.lookup(k) == if fv.take(f + 1).contains(k) {
                        Some((iv.len() + index_in(fv, k) + 1) as usize)
                    } else {
                        mid_map.lookup(k)
                    } by {
                    if fv.take(f + 1).contains(k) && k != fv[f as int] {
                        let s1 = fv.take(f + 1);
                        let t = choose|t: int| 0 <= t < f + 1 && s1[t] == k;
                        assert(fv.take(f as int)[t] == k);
                    }
                    if fv.take(f as int).contains(k) {
                        let s0 = fv.take(f as int);
                        let t = choose|t: int| 0 <= t < f && s0[t] == k;
                        assert(fv.take(f + 1)[t] == k);
                    }
                    if k == fv[f as int] {
                        assert(fv.take(f + 1)[f as int] == k);
                    }
                }
            }
            idx = idx + 1;
            f = f + 1;
        }
        proof {
            assert(fv.take(fv.len() as int) == fv);
        }
        self.image_hrefs = imgs;
        self.font_hrefs = fonts;
        proof {
            assert(strictly_lex_sorted(h) && (forall|k: Seq<char>| h.contains(k) <==> css_key(*resources, k))
                && views(self.css_flows@) == views(old(self).css_flows@) + css_texts(*resources, h));
        }
    }
}


/// The bytes of records.
pub open spec fn rec_bytes(rs: Seq<Vec<u8>>) -> Seq<Seq<u8>> {
    rs.map_values(|r: Vec<u8>| r@)
}

/// The image records: the bytes of each image found, in href order.
pub open spec fn image_records(res: StrMap<Resource>, hrefs: Seq<String>) -> Seq<Seq<u8>>
    decreases hrefs.len(),
{
    if hrefs.len() == 0 {
        Seq::empty()
    } else {
        image_records(res, hrefs.drop_last()) + match res.lookup(hrefs.last()@) {
            Some(r) => seq![r.data@],
            None => Seq::empty(),
        }
    }
}

/// The FONT records of the fonts found, in href order.
pub open spec fn font_records(res: StrMap<Resource>, hrefs: Seq<String>, seed: u64) -> Seq<Seq<u8>>
    decreases hrefs.len(),
{
    if hrefs.len() == 0 {
        Seq::empty()
    } else {
        font_records(res, hrefs.drop_last(), seed) + match res.lookup(hrefs.last()@) {
            Some(r) => match zlib_compressed(r.data@) {
                Some(c) => seq![font_record(r.data@.len(), c, seed)],
                None => Seq::empty(),
            },
            None => Seq::empty(),
        }
    }
}

/// The font at `href`, if there is one, compresses without error.
pub open spec fn font_compresses(res: StrMap<Resource>, href: Seq<char>) -> bool {
    match res.lookup(href) {
        Some(r) => zlib_compressed(r.data@) is Some,
        None => true,
    }
}

/// Every font named in `hrefs` compresses without error.
pub open spec fn fonts_compress(res: StrMap<Resource>, hrefs: Seq<String>) -> bool {
    forall|i: int| 0 <= i < hrefs.len() ==> #[trigger] font_compresses(res, hrefs[i]@)
}

impl Kf8Builder {
    /// Append the resource records: each image's bytes, then each font as a
    /// FONT record (`time_seed` seeds the font obfuscation key). The first
    /// resource record is noted when there is any image or font. `false`
    /// exactly when compressing a font failed; the records added until then
    /// stay.
    pub fn write_resource_records(&mut self, resources: &StrMap<Resource>, time_seed: u64) -> (ok: bool)
        ensures
            ok <==> fonts_compress(*resources, old(self).font_hrefs@),
            final(self).first_resource_record == if old(self).image_hrefs@.len() > 0 || old(self).font_hrefs@.len() > 0 {
                old(self).records@.len() as u32
            } else {
                old(self).first_resource_record
            },
            ok ==> rec_bytes(final(self).records@) == rec_bytes(old(self).records@) + image_records(
                *resources,
                old(self).image_hrefs@,
            ) + font_records(*resources, old(self).font_hrefs@, time_seed),
            final(self).records@.len() >= old(self).records@.len(),
            forall|i: int| 0 <= i < old(self).records@.len() ==> final(self).records@[i] == old(self).records@[i],
            same_but_records(
                Kf8Builder { first_resource_record: final(self).first_resource_record, ..*old(self) },
                *final(self),
            ),
    {
        if self.image_hrefs.len() > 0 || self.font_hrefs.len() > 0 {
            self.first_resource_record = #[verifier::truncate] (self.records.len() as u32);
        }
        let ghost start = rec_bytes(self.records@);
        let ghost old_records = self.records@;
        let mut i: usize = 0;
        while i < self.image_hrefs.len()
            invariant
                0 <= i <= self.image_hrefs@.len(),
                same_but_records(Kf8Builder { first_resource_record: self.first_resource_record, ..*old(self) }, *self),
                self.first_resource_record == if old(self).image_hrefs@.len() > 0 || old(self).font_hrefs@.len() > 0 {
                    old(self).records@.len() as u32
                } else {
                    old(self).first_resource_record
                },
                old_records == old(self).records@,
                start == rec_bytes(old_records),
                rec_bytes(self.records@) == start + image_records(*resources, self.image_hrefs@.take(i as int)),
                self.records@.len() >= old_records.len(),
                forall|j: int| 0 <= j < old_records.len() ==> self.records@[j] == old_records[j],
            decreases self.image_hrefs@.len() - i,
        {
            proof {
                assert(self.image_hrefs@.take(i + 1).drop_last() == self.image_hrefs@.take(i as int));
                assert(self.image_hrefs@.take(i + 1).last() == self.image_hrefs@[i as int]);
            }
            match resources.get(self.image_hrefs[i].as_str()) {
                Some(r) => {
                    let data = crate::kf8::bytes_to_vec(r.data.as_slice());
                    let ghost before = self.records@;
                    self.records.push(data);
                    proof {
                        assert(rec_bytes(self.records@) =~= rec_bytes(before).push(data@));
                    }
                },
                None => {},
            }
            proof {
                assert(rec_bytes(self.records@) =~= start + image_records(*resources, self.image_hrefs@.take(i + 1)));
            }
            i = i + 1;
        }
        proof {
            assert(self.image_hrefs@.take(self.image_hrefs@.len() as int) == self.image_hrefs@);
        }
        let ghost mid = rec_bytes(self.records@);
        let mut f: usize = 0;
        while f < self.font_hrefs.len()
            invariant
                0 <= f <= self.font_hrefs@.len(),
                same_but_records(Kf8Builder { first_resource_record: self.first_resource_record, ..*old(self) }, *self),
                self.first_resource_record == if old(self).image_hrefs@.len() > 0 || old(self).font_hrefs@.len() > 0 {
                    old(self).records@.len() as u32
                } else {
                    old(self).first_resource_record
                },
                old_records == old(self).records@,
                mid == start + image_records(*resources, self.image_hrefs@),
                start == rec_bytes(old_records),
                rec_bytes(self.records@) == mid + font_records(*resources, self.font_hrefs@.take(f as int), time_seed),
                self.font_hrefs@ == old(self).font_hrefs@,
                forall|i: int| 0 <= i < f ==> #[trigger] font_compresses(*resources, self.font_hrefs@[i]@),
                self.records@.len() >= old_records.len(),
                forall|j: int| 0 <= j < old_records.len() ==> self.records@[j] == old_records[j],
            decreases self.font_hrefs@.len() - f,
        {
            proof {
                assert(self.font_hrefs@.take(f + 1).drop_last() == self.font_hrefs@.take(f as int));
                assert(self.font_hrefs@.take(f + 1).last() == self.font_hrefs@[f as int]);
            }
            match resources.get(self.font_hrefs[f].as_str()) {
                Some(r) => {
                    match write_font_record(r.data.as_slice(), time_seed) {
                        Some(rec) => {
                            let ghost before = self.records@;
                            self.records.push(rec);
                            proof {
                                assert(rec_bytes(self.records@) =~= rec_bytes(before).push(rec@));
                            }
                        },
                        None => {
                            proof {
                                assert(!font_compresses(*resources, self.font_hrefs@[f as int]@));
                            }
                            return false;
                        },
                    }
                },
                None => {},
            }
            proof {
                assert(rec_bytes(self.records@) =~= mid + font_records(*resources, self.font_hrefs@.take(f + 1), time_seed));
            }
            f = f + 1;
        }
        proof {
            assert(self.font_hrefs@.take(self.font_hrefs@.len() as int) == self.font_hrefs@);
        }
        true
    }
}

/// The final component of a path (components are separated by `/`; empty
/// components and `.` do not count), unless the path ends in `..` or has
/// none.
pub open spec fn file_name(p: Seq<char>) -> Option<Seq<char>>
    decreases p.len(),
{
    match last_index_of(p, '/') {
        None => if p.len() == 0 || p == seq!['.'] || p == seq!['.', '.'] {
            None
        } else {
            Some(p)
        },
        Some(i) => {
            let tail = p.skip(i + 1);
            if tail.len() == 0 || tail == seq!['.'] {
                if 0 <= i < p.len() {
                    file_name(p.take(i))
                } else {
                    None
                }
            } else if tail == seq!['.', '.'] {
                None
            } else {
                Some(tail)
            }
        },
    }
}

/// The index of the last `c` in `s`.
pub open spec fn last_index_of(s: Seq<char>, c: char) -> Option<int> {
    if exists|i: int| 0 <= i < s.len() && s[i] == c {
        Some(choose|i: int| 0 <= i < s.len() && s[i] == c && forall|j: int| i < j < s.len() ==> s[j] != c)
    } else {
        None
    }
}

/// The extension of a path: the part of its file name after the last `.`,
/// unless the name has no `.` or its only `.` is the first character.
pub open spec fn extension(p: Seq<char>) -> Option<Seq<char>> {
    match file_name(p) {
        None => None,
        Some(name) => match last_index_of(name, '.') {
            None => None,
            Some(i) => if i == 0 {
                None
            } else {
                Some(name.skip(i + 1))
            },
        },
    }
}

/// ASCII letters in lower case.
pub open spec fn ascii_lower(s: Seq<char>) -> Seq<char> {
    s.map_values(|c: char| if 'A' <= c && c <= 'Z' { (((c as u8) + 32) as u8) as char } else { c })
}

/// The media type for a lower-case file extension.
pub open spec fn media_for_ext(e: Seq<char>) -> Seq<char> {
    if e == seq!['x', 'h', 't', 'm', 'l'] || e == seq!['h', 't', 'm', 'l'] || e == seq!['h', 't', 'm'] {
        "application/xhtml+xml"@
    } else if e == seq!['c', 's', 's'] {
        "text/css"@
    } else if e == seq!['j', 'p', 'g'] || e == seq!['j', 'p', 'e', 'g'] {
        "image/jpeg"@
    } else if e == seq!['p', 'n', 'g'] {
        "image/png"@
    } else if e == seq!['g', 'i', 'f'] {
        "image/gif"@
    } else if e == seq!['s', 'v', 'g'] {
        "image/svg+xml"@
    } else if e == seq!['t', 't', 'f'] {
        "font/ttf"@
    } else if e == seq!['o', 't', 'f'] {
        "font/otf"@
    } else if e == seq!['w', 'o', 'f', 'f'] {
        "font/woff"@
    } else if e == seq!['w', 'o', 'f', 'f', '2'] {
        "font/woff2"@
    } else {
        "application/octet-stream"@
    }
}

/// The media type guessed from a path's extension (case-insensitive).
pub open spec fn guessed_media_type(p: Seq<char>) -> Seq<char> {
    match extension(p) {
        Some(e) => media_for_ext(ascii_lower(e)),
        None => media_for_ext(Seq::empty()),
    }
}

/// The index of the last `c` in `s`.
fn find_last(s: &[char], c: char) -> (r: Option<usize>)
    ensures
        match r {
            Some(k) => k < s@.len() && last_index_of(s@, c) == Some(k as int),
            None => last_index_of(s@, c) is None,
        },
{
    let mut i: usize = s.len();
    while i > 0
        invariant
            0 <= i <= s@.len(),
            forall|j: int| i <= j < s@.len() ==> s@[j] != c,
        decreases i,
    {
        if s[i - 1] == c {
            proof {
                let k = (i - 1) as int;
                assert(0 <= k < s@.len() && s@[k] == c);
                let w = choose|w: int| 0 <= w < s@.len() && s@[w] == c && forall|j: int| w < j < s@.len() ==> s@[j] != c;
                if w < k {
                    assert(s@[k] != c);
                }
            }
            return Some(i - 1);
        }
        i = i - 1;
    }
    None
}

/// The final component of a path.
fn file_name_of(p: &[char]) -> (r: Option<Vec<char>>)
    ensures
        match file_name(p@) {
            Some(n) => r matches Some(v) && v@ == n,
            None => r is None,
        },
    decreases p@.len(),
{
    let dot: [char; 1] = ['.'];
    let dotdot: [char; 2] = ['.', '.'];
    proof {
        assert(dot@ == seq!['.']);
        assert(dotdot@ == seq!['.', '.']);
    }
    match find_last(p, '/') {
        None => {
            if p.len() == 0 || chars_eq(p, &dot) || chars_eq(p, &dotdot) {
                None
            } else {
                Some(crate::text::chars_from(p, 0))
            }
        },
        Some(i) => {
            let n = p.len();
            assert(i < n);
            let tail = crate::text::chars_from(p, i + 1);
            if tail.len() == 0 || chars_eq(&tail, &dot) {
                let head = crate::text::chars_to(p, i);
                file_name_of(&head)
            } else if chars_eq(&tail, &dotdot) {
                None
            } else {
                Some(tail)
            }
        },
    }
}

/// Whether the characters are those of `lit`.
fn is_word(e: &[char], lit: &[char]) -> (r: bool)
    ensures
        r == (e@ == lit@),
{
    chars_eq(e, lit)
}

/// The extension of a path (empty when it has none).
fn extension_of(cs: &Vec<char>) -> (r: Vec<char>)
    ensures
        r@ == match extension(cs@) {
            Some(e) => e,
            None => Seq::empty(),
        },
{
    match file_name_of(cs) {
        None => Vec::new(),
        Some(name) => match find_last(&name, '.') {
            None => Vec::new(),
            Some(i) => if i == 0 {
                Vec::new()
            } else {
                let n = name.len();
                assert(i < n);
                crate::text::chars_from(&name, i + 1)
            },
        },
    }
}

/// The extension of a path in ASCII lower case (empty when it has none).
fn lower_extension(path: &str) -> (r: Vec<char>)
    ensures
        r@ == match extension(path@) {
            Some(e) => ascii_lower(e),
            None => Seq::empty(),
        },
{
    let cs = chars_of(path);
    let ext = extension_of(&cs);
    let mut lower: Vec<char> = Vec::new();
    let mut i: usize = 0;
    while i < ext.len()
        invariant
            0 <= i <= ext@.len(),
            lower@ == ascii_lower(ext@.take(i as int)),
        decreases ext@.len() - i,
    {
        let c = ext[i];
        let l = if 'A' <= c && c <= 'Z' {
            ((c as u8) + 32) as char
        } else {
            c
        };
        lower.push(l);
        proof {
            assert(ascii_lower(ext@.take(i + 1)) =~= ascii_lower(ext@.take(i as int)).push(
                if 'A' <= c && c <= 'Z' { (((c as u8) + 32) as u8) as char } else { c },
            ));
        }
        i = i + 1;
    }
    proof {
        assert(ext@.take(ext@.len() as int) == ext@);
        assert(ascii_lower(Seq::<char>::empty()) =~= Seq::<char>::empty());
    }
    lower
}

/// The media type for a lower-case extension.
fn media_for(lower: &[char]) -> (r: String)
    ensures
        r@ == media_for_ext(lower@),
{
    if is_word(lower, &['x', 'h', 't', 'm', 'l']) || is_word(lower, &['h', 't', 'm', 'l']) || is_word(lower, &['h', 't', 'm']) {
        "application/xhtml+xml".to_owned()
    } else if is_word(lower, &['c', 's', 's']) {
        "text/css".to_owned()
    } else if is_word(lower, &['j', 'p', 'g']) || is_word(lower, &['j', 'p', 'e', 'g']) {
        "image/jpeg".to_owned()
    } else if is_word(lower, &['p', 'n', 'g']) {
        "image/png".to_owned()
    } else if is_word(lower, &['g', 'i', 'f']) {
        "image/gif".to_owned()
    } else if is_word(lower, &['s', 'v', 'g']) {
        "image/svg+xml".to_owned()
    } else if is_word(lower, &['t', 't', 'f']) {
        "font/ttf".to_owned()
    } else if is_word(lower, &['o', 't', 'f']) {
        "font/otf".to_owned()
    } else if is_word(lower, &['w', 'o', 'f', 'f']) {
        "font/woff".to_owned()
    } else if is_word(lower, &['w', 'o', 'f', 'f', '2']) {
        "font/woff2".to_owned()
    } else {
        "application/octet-stream".to_owned()
    }
}

/// Guess a media type from a path's file extension (case-insensitive);
/// `application/octet-stream` when it is unknown.
pub fn guess_media_type(path: &str) -> (r: String)
    ensures
        r@ == guessed_media_type(path@),
{
    let lower = lower_extension(path);
    proof {
        assert(ascii_lower(Seq::<char>::empty()) =~= Seq::<char>::empty());
    }
    media_for(&lower)
}


/// The image records of hrefs that all name resources: one per href, its
/// bytes.
proof fn lemma_image_records(res: StrMap<Resource>, hrefs: Seq<String>)
    requires
        forall|i: int| 0 <= i < hrefs.len() ==> (#[trigger] res.lookup(hrefs[i]@)) is Some,
    ensures
        image_records(res, hrefs).len() == hrefs.len(),
        forall|i: int|
            0 <= i < hrefs.len() ==> #[trigger] image_records(res, hrefs)[i] == res.lookup(hrefs[i]@)->0.data@,
    decreases hrefs.len(),
{
    if hrefs.len() > 0 {
        let d = hrefs.drop_last();
        assert forall|i: int| 0 <= i < d.len() implies (#[trigger] res.lookup(d[i]@)) is Some by {
            assert(d[i] == hrefs[i]);
        }
        lemma_image_records(res, d);
        assert(res.lookup(hrefs[hrefs.len() - 1]@) is Some);
        assert forall|i: int| 0 <= i < hrefs.len() implies #[trigger] image_records(res, hrefs)[i] == res.lookup(
            hrefs[i]@,
        )->0.data@ by {
            if i < d.len() {
                assert(d[i] == hrefs[i]);
            }
        }
    }
}

/// The FONT records of hrefs that all name fonts that compress: one per
/// href, the FONT record of its bytes.
proof fn lemma_font_records(res: StrMap<Resource>, hrefs: Seq<String>, seed: u64)
    requires
        forall|i: int| 0 <= i < hrefs.len() ==> (#[trigger] res.lookup(hrefs[i]@)) is Some,
        fonts_compress(res, hrefs),
    ensures
        font_records(res, hrefs, seed).len() == hrefs.len(),
        forall|i: int|
            0 <= i < hrefs.len() ==> #[trigger] font_records(res, hrefs, seed)[i] == font_record(
                res.lookup(hrefs[i]@)->0.data@.len(),
                zlib_compressed(res.lookup(hrefs[i]@)->0.data@)->0,
                seed,
            ),
    decreases hrefs.len(),
{
    if hrefs.len() > 0 {
        let d = hrefs.drop_last();
        assert forall|i: int| 0 <= i < d.len() implies (#[trigger] res.lookup(d[i]@)) is Some by {
            assert(d[i] == hrefs[i]);
        }
        assert forall|i: int| 0 <= i < d.len() implies #[trigger] font_compresses(res, d[i]@) by {
            assert(d[i] == hrefs[i]);
            assert(font_compresses(res, hrefs[i]@));
        }
        lemma_font_records(res, d, seed);
        let n = hrefs.len() - 1;
        assert(res.lookup(hrefs[n]@) is Some);
        assert(font_compresses(res, hrefs[n]@));
        assert forall|i: int| 0 <= i < hrefs.len() implies #[trigger] font_records(res, hrefs, seed)[i] == font_record(
            res.lookup(hrefs[i]@)->0.data@.len(),
            zlib_compressed(res.lookup(hrefs[i]@)->0.data@)->0,
            seed,
        ) by {
            if i < d.len() {
                assert(d[i] == hrefs[i]);
            }
        }
    }
}

/// Law: the resource record numbers that `collect_resources` hands out
/// locate the records that `write_resource_records` appends. Numbered from
/// 1 among the appended records (images, then FONT records), the record of
/// a font href is the FONT record of its bytes and the record of an image
/// href is its bytes.
pub proof fn law_resource_numbers_locate_records(
    res: StrMap<Resource>,
    imgs: Seq<String>,
    fonts: Seq<String>,
    seed: u64,
    h: Seq<char>,
)
    requires
        forall|i: int| 0 <= i < imgs.len() ==> #[trigger] image_key(res, imgs[i]@),
        forall|i: int| 0 <= i < fonts.len() ==> #[trigger] font_key(res, fonts[i]@),
        fonts_compress(res, fonts),
        imgs.len() + fonts.len() < usize::MAX,
        views(imgs).contains(h) || views(fonts).contains(h),
    ensures
        ({
            let recs = image_records(res, imgs) + font_records(res, fonts, seed);
            let num = resource_number(views(imgs), views(fonts), None, h);
            let d = res.lookup(h)->0.data@;
            &&& num is Some
            &&& 1 <= num->0 <= recs.len()
            &&& recs[num->0 - 1] == if views(fonts).contains(h) {
                font_record(d.len(), zlib_compressed(d)->0, seed)
            } else {
                d
            }
        }),
{
    assert forall|i: int| 0 <= i < imgs.len() implies (#[trigger] res.lookup(imgs[i]@)) is Some by {
        assert(image_key(res, imgs[i]@));
    }
    assert forall|i: int| 0 <= i < fonts.len() implies (#[trigger] res.lookup(fonts[i]@)) is Some by {
        assert(font_key(res, fonts[i]@));
    }
    lemma_image_records(res, imgs);
    lemma_font_records(res, fonts, seed);
    let ir = image_records(res, imgs);
    let fr = font_records(res, fonts, seed);
    if views(fonts).contains(h) {
        let i = index_in(views(fonts), h);
        let w = choose|j: int| 0 <= j < views(fonts).len() && views(fonts)[j] == h;
        assert(0 <= w < views(fonts).len() && views(fonts)[w] == h);
        assert(0 <= i < fonts.len() && fonts[i]@ == h);
        assert((ir + fr)[imgs.len() + i] == fr[i]);
    } else {
        let i = index_in(views(imgs), h);
        let w = choose|j: int| 0 <= j < views(imgs).len() && views(imgs)[j] == h;
        assert(0 <= w < views(imgs).len() && views(imgs)[w] == h);
        assert(0 <= i < imgs.len() && imgs[i]@ == h);
        assert((ir + fr)[i] == ir[i]);
    }
}


/// `e` spells the lower-case word `w`, each letter in either case.
pub open spec fn spells_ignoring_case(e: Seq<char>, w: Seq<char>) -> bool {
    &&& e.len() == w.len()
    &&& forall|i: int|
        0 <= i < e.len() ==> 'a' <= #[trigger] w[i] <= 'z' && (e[i] == w[i] || e[i] as int + 32 == w[i] as int)
}

/// Lower-casing a word spelled in any case gives the word.
proof fn lemma_lower_spelling(e: Seq<char>, w: Seq<char>)
    requires
        spells_ignoring_case(e, w),
    ensures
        ascii_lower(e) == w,
{
    assert forall|i: int| 0 <= i < e.len() implies #[trigger] ascii_lower(e)[i] == w[i] by {
        let c = e[i];
        assert('a' <= w[i] <= 'z');
        if c != w[i] {
            assert('A' <= c && c <= 'Z');
            let u = c as u8;
            assert(u as int == c as int);
            assert(((u + 32) as u8) as int == w[i] as int);
        }
    }
    assert(ascii_lower(e) =~= w);
}

/// The media type of the two JPEG extensions.
proof fn lemma_jpeg_media()
    ensures
        media_for_ext(seq!['j', 'p', 'e', 'g']) == "image/jpeg"@,
        media_for_ext(seq!['j', 'p', 'g']) == "image/jpeg"@,
{
    let a = seq!['j', 'p', 'e', 'g'];
    let b = seq!['j', 'p', 'g'];
    assert(a != seq!['x', 'h', 't', 'm', 'l']);
    assert(a[0] != seq!['h', 't', 'm', 'l'][0]);
    assert(b[0] != seq!['h', 't', 'm'][0]);
    assert(b[0] != seq!['c', 's', 's'][0]);
}

/// The media type a path gets from its extension, lower-cased.
proof fn lemma_guessed_by_extension(p: Seq<char>, e: Seq<char>)
    requires
        extension(p) == Some(e),
    ensures
        guessed_media_type(p) == media_for_ext(ascii_lower(e)),
{
}

/// The JPEG media type is an image type.
proof fn lemma_jpeg_is_image()
    ensures
        is_image("image/jpeg"@),
{
    reveal_strlit("image/jpeg");
    assert("image/jpeg"@.take(6) =~= seq!['i', 'm', 'a', 'g', 'e', '/']);
}

/// Law: a path whose extension is `jpeg` or `jpg`, with its letters in any
/// case, is a JPEG image: both extensions get the media type `image/jpeg`.
#[verifier::spinoff_prover]
pub proof fn law_jpeg_extensions_are_jpeg(p: Seq<char>, e: Seq<char>)
    requires
        extension(p) == Some(e),
        spells_ignoring_case(e, seq!['j', 'p', 'e', 'g']) || spells_ignoring_case(e, seq!['j', 'p', 'g']),
    ensures
        guessed_media_type(p) == "image/jpeg"@,
        is_image(guessed_media_type(p)),
{
    lemma_guessed_by_extension(p, e);
    lemma_jpeg_media();
    lemma_jpeg_is_image();
    if spells_ignoring_case(e, seq!['j', 'p', 'e', 'g']) {
        lemma_lower_spelling(e, seq!['j', 'p', 'e', 'g']);
    } else {
        lemma_lower_spelling(e, seq!['j', 'p', 'g']);
    }
}


/// The media types of the image extensions.
#[verifier::spinoff_prover]
proof fn lemma_image_media()
    ensures
        is_image(media_for_ext(seq!['j', 'p', 'g'])),
        is_image(media_for_ext(seq!['j', 'p', 'e', 'g'])),
        is_image(media_for_ext(seq!['p', 'n', 'g'])),
        is_image(media_for_ext(seq!['g', 'i', 'f'])),
        is_image(media_for_ext(seq!['s', 'v', 'g'])),
{
    reveal_strlit("image/jpeg");
    reveal_strlit("image/png");
    reveal_strlit("image/gif");
    reveal_strlit("image/svg+xml");
    let img = seq!['i', 'm', 'a', 'g', 'e', '/'];
    assert(seq!['c', 's', 's'][0] == 'c' && seq!['h', 't', 'm'][0] == 'h' && seq!['j', 'p', 'g'][0] == 'j');
    assert(seq!['p', 'n', 'g'][0] == 'p' && seq!['g', 'i', 'f'][0] == 'g' && seq!['s', 'v', 'g'][0] == 's');
    assert(seq!['h', 't', 'm', 'l'][0] == 'h' && seq!['j', 'p', 'e', 'g'][0] == 'j');
    assert("image/jpeg"@.take(6) =~= img);
    assert("image/png"@.take(6) =~= img);
    assert("image/gif"@.take(6) =~= img);
    assert("image/svg+xml"@.take(6) =~= img);
}

/// The media types of the font extensions.
#[verifier::spinoff_prover]
proof fn lemma_font_media()
    ensures
        is_font(media_for_ext(seq!['t', 't', 'f'])),
        is_font(media_for_ext(seq!['o', 't', 'f'])),
        is_font(media_for_ext(seq!['w', 'o', 'f', 'f'])),
        is_font(media_for_ext(seq!['w', 'o', 'f', 'f', '2'])),
{
    reveal_strlit("font/ttf");
    reveal_strlit("font/otf");
    reveal_strlit("font/woff");
    reveal_strlit("font/woff2");
    let font = seq!['f', 'o', 'n', 't'];
    let ttf = seq!['t', 't', 'f'];
    let otf = seq!['o', 't', 'f'];
    assert(ttf[0] == 't' && otf[0] == 'o');
    assert(seq!['c', 's', 's'][0] == 'c' && seq!['h', 't', 'm'][0] == 'h' && seq!['j', 'p', 'g'][0] == 'j');
    assert(seq!['p', 'n', 'g'][0] == 'p' && seq!['g', 'i', 'f'][0] == 'g' && seq!['s', 'v', 'g'][0] == 's');
    assert(seq!['t', 't', 'f'][0] == 't');
    assert(seq!['h', 't', 'm', 'l'][0] == 'h' && seq!['j', 'p', 'e', 'g'][0] == 'j' && seq!['w', 'o', 'f', 'f'][0] == 'w');
    assert(media_for_ext(ttf) == "font/ttf"@);
    assert(media_for_ext(otf) == "font/otf"@);
    lemma_font_word("font/ttf"@, 0);
    lemma_font_word("font/otf"@, 0);
    lemma_font_word("font/woff"@, 0);
    lemma_font_word("font/woff2"@, 0);
}

/// A media type that starts with `font` names a font.
proof fn lemma_font_word(m: Seq<char>, i: int)
    requires
        i == 0,
        m.len() >= 4,
        m[0] == 'f' && m[1] == 'o' && m[2] == 'n' && m[3] == 't',
    ensures
        is_font(m),
{
    assert(m.subrange(i, i + 4) =~= seq!['f', 'o', 'n', 't']);
}

/// The media types of the style-sheet and page extensions.
#[verifier::spinoff_prover]
proof fn lemma_text_media()
    ensures
        is_css(media_for_ext(seq!['c', 's', 's'])),
        media_for_ext(seq!['x', 'h', 't', 'm', 'l']) == "application/xhtml+xml"@,
        media_for_ext(seq!['h', 't', 'm', 'l']) == "application/xhtml+xml"@,
        media_for_ext(seq!['h', 't', 'm']) == "application/xhtml+xml"@,
{
    assert(seq!['c', 's', 's'][0] == 'c' && seq!['h', 't', 'm'][0] == 'h');
}

/// A path whose extension lower-cases to `w` gets the media type of `w`.
#[verifier::spinoff_prover]
proof fn lemma_guessed_word(p: Seq<char>, e: Seq<char>, w: Seq<char>)
    requires
        extension(p) == Some(e),
        spells_ignoring_case(e, w),
    ensures
        guessed_media_type(p) == media_for_ext(w),
{
    lemma_lower_spelling(e, w);
    lemma_guessed_by_extension(p, e);
}

/// Law: a path whose extension is `jpg`, `jpeg`, `png`, `gif` or `svg`,
/// with its letters in any case, is an image.
#[verifier::spinoff_prover]
#[verifier::rlimit(50)]
pub proof fn law_image_extensions_are_images(p: Seq<char>, e: Seq<char>)
    requires
        extension(p) == Some(e),
        spells_ignoring_case(e, seq!['j', 'p', 'g']) || spells_ignoring_case(e, seq!['j', 'p', 'e', 'g']) || spells_ignoring_case(e, seq!['p', 'n', 'g']) || spells_ignoring_case(e, seq!['g', 'i', 'f']) || spells_ignoring_case(e, seq!['s', 'v', 'g']),
    ensures
        is_image(guessed_media_type(p)),
{
    lemma_image_media();
    if spells_ignoring_case(e, seq!['j', 'p', 'g']) {
        lemma_guessed_word(p, e, seq!['j', 'p', 'g']);
    } else if spells_ignoring_case(e, seq!['j', 'p', 'e', 'g']) {
        lemma_guessed_word(p, e, seq!['j', 'p', 'e', 'g']);
    } else if spells_ignoring_case(e, seq!['p', 'n', 'g']) {
        lemma_guessed_word(p, e, seq!['p', 'n', 'g']);
    } else if spells_ignoring_case(e, seq!['g', 'i', 'f']) {
        lemma_guessed_word(p, e, seq!['g', 'i', 'f']);
    } else {
        lemma_guessed_word(p, e, seq!['s', 'v', 'g']);
    }
}

/// Law: a path whose extension is `ttf`, `otf`, `woff` or `woff2`, with its
/// letters in any case, is a font.
#[verifier::spinoff_prover]
#[verifier::rlimit(50)]
pub proof fn law_font_extensions_are_fonts(p: Seq<char>, e: Seq<char>)
    requires
        extension(p) == Some(e),
        spells_ignoring_case(e, seq!['t', 't', 'f']) || spells_ignoring_case(e, seq!['o', 't', 'f']) || spells_ignoring_case(e, seq!['w', 'o', 'f', 'f']) || spells_ignoring_case(e, seq!['w', 'o', 'f', 'f', '2']),
    ensures
        is_font(guessed_media_type(p)),
{
    lemma_font_media();
    if spells_ignoring_case(e, seq!['t', 't', 'f']) {
        lemma_guessed_word(p, e, seq!['t', 't', 'f']);
    } else if spells_ignoring_case(e, seq!['o', 't', 'f']) {
        lemma_guessed_word(p, e, seq!['o', 't', 'f']);
    } else if spells_ignoring_case(e, seq!['w', 'o', 'f', 'f']) {
        lemma_guessed_word(p, e, seq!['w', 'o', 'f', 'f']);
    } else {
        lemma_guessed_word(p, e, seq!['w', 'o', 'f', 'f', '2']);
    }
}

/// Law: a path whose extension is `css`, with its letters in any case, is a
/// style sheet.
#[verifier::spinoff_prover]
pub proof fn law_css_extension_is_css(p: Seq<char>, e: Seq<char>)
    requires
        extension(p) == Some(e),
        spells_ignoring_case(e, seq!['c', 's', 's']),
    ensures
        is_css(guessed_media_type(p)),
{
    lemma_guessed_by_extension(p, e);
    lemma_text_media();
    lemma_lower_spelling(e, seq!['c', 's', 's']);
}

/// Law: a path whose extension is `xhtml`, `html` or `htm`, with its
/// letters in any case, is an XHTML page.
#[verifier::spinoff_prover]
pub proof fn law_page_extensions_are_xhtml(p: Seq<char>, e: Seq<char>)
    requires
        extension(p) == Some(e),
        spells_ignoring_case(e, seq!['x', 'h', 't', 'm', 'l']) || spells_ignoring_case(e, seq!['h', 't', 'm', 'l']) || spells_ignoring_case(e, seq!['h', 't', 'm']),
    ensures
        guessed_media_type(p) == "application/xhtml+xml"@,
{
    lemma_text_media();
    if spells_ignoring_case(e, seq!['x', 'h', 't', 'm', 'l']) {
        lemma_guessed_word(p, e, seq!['x', 'h', 't', 'm', 'l']);
    } else if spells_ignoring_case(e, seq!['h', 't', 'm', 'l']) {
        lemma_guessed_word(p, e, seq!['h', 't', 'm', 'l']);
    } else {
        lemma_guessed_word(p, e, seq!['h', 't', 'm']);
    }
}

} // verus!
