use std::io::Read;

use boko::anchors::{resolve_filepos_entry, resolve_filepos_to_offset, sanitize_title, split_href};
use boko::azw3::{Azw3Config, Azw3Exporter, BookContent, BookContext};
use boko::bytes::write_base32;
use boko::guide::{collect_guide_entries, landmark_to_guide_type, Landmark, LandmarkType};
use boko::kf8::{assemble_font_record, rand_uid, write_font_record, Kf8Builder, Metadata, NULL_INDEX};
use boko::kf8_links::link_placeholder;
use boko::kf8_text::{css_flow_map, flow_chunks};
use boko::resources::{guess_media_type, Resource};
use boko::strmap::{PairMap, StrMap};
use boko::toc::{flatten_toc, TocEntry};

fn metadata(title: &str) -> Metadata {
    Metadata {
        title: title.to_string(),
        authors: Vec::new(),
        publisher: None,
        description: None,
        subjects: Vec::new(),
        date: None,
        contributors: Vec::new(),
        rights: None,
        identifier: String::new(),
        cover_image: None,
        language: String::new(),
    }
}

fn be32(v: u32) -> Vec<u8> {
    v.to_be_bytes().to_vec()
}

#[test]
fn test_sanitize_title() {
    assert_eq!(sanitize_title("Hello World"), "Hello_World");
    assert_eq!(sanitize_title("Test <Book>"), "Test_Book");
}

#[test]
fn test_resolve_filepos_entry_exact_match() {
    let mut filepos_map = StrMap::new();
    filepos_map.insert(
        "content.html".to_string(),
        vec![(100, "0001".to_string()), (200, "0002".to_string()), (300, "0003".to_string())],
    );

    let mut aid_offset_map = StrMap::new();
    aid_offset_map.insert("0001".to_string(), (0, 50, 100));
    aid_offset_map.insert("0002".to_string(), (0, 150, 200));
    aid_offset_map.insert("0003".to_string(), (0, 250, 300));

    let result = resolve_filepos_entry("content.html", "filepos200", &filepos_map, &aid_offset_map);
    assert_eq!(result, Some((0, 150, 200)));
}

#[test]
fn test_resolve_filepos_entry_nearest_before() {
    let mut filepos_map = StrMap::new();
    filepos_map.insert("content.html".to_string(), vec![(100, "0001".to_string()), (200, "0002".to_string())]);

    let mut aid_offset_map = StrMap::new();
    aid_offset_map.insert("0001".to_string(), (0, 50, 100));
    aid_offset_map.insert("0002".to_string(), (1, 25, 200));

    let result = resolve_filepos_entry("content.html", "filepos250", &filepos_map, &aid_offset_map);
    assert_eq!(result, Some((1, 25, 200)));
}

#[test]
fn test_resolve_filepos_entry_invalid_fragment() {
    let filepos_map: StrMap<Vec<(usize, String)>> = StrMap::new();
    let aid_offset_map: StrMap<(usize, usize, usize)> = StrMap::new();

    assert_eq!(resolve_filepos_entry("content.html", "anchor123", &filepos_map, &aid_offset_map), None);
    assert_eq!(resolve_filepos_entry("content.html", "fileposXYZ", &filepos_map, &aid_offset_map), None);
}

#[test]
fn test_resolve_filepos_to_offset() {
    let mut filepos_map = StrMap::new();
    filepos_map.insert("content.html".to_string(), vec![(100, "0001".to_string()), (500, "0002".to_string())]);

    let mut aid_offset_map = StrMap::new();
    aid_offset_map.insert("0001".to_string(), (0, 50, 100));
    aid_offset_map.insert("0002".to_string(), (1, 25, 500));

    // Position 450 should resolve to aid at 100 (nearest before)
    let result = resolve_filepos_to_offset("content.html", "filepos450", &filepos_map, &aid_offset_map);
    assert_eq!(result, Some((0, 50)));

    // Exact match at 500
    let result = resolve_filepos_to_offset("content.html", "filepos500", &filepos_map, &aid_offset_map);
    assert_eq!(result, Some((1, 25)));
}

#[test]
fn filepos_before_first_anchor_uses_first() {
    let mut filepos_map = StrMap::new();
    filepos_map.insert("c.html".to_string(), vec![(100, "a".to_string()), (200, "b".to_string())]);
    let mut aid_offset_map = StrMap::new();
    aid_offset_map.insert("a".to_string(), (3, 4, 100));
    aid_offset_map.insert("b".to_string(), (5, 6, 200));
    assert_eq!(resolve_filepos_entry("c.html", "filepos7", &filepos_map, &aid_offset_map), Some((3, 4, 100)));
    assert_eq!(resolve_filepos_entry("other.html", "filepos7", &filepos_map, &aid_offset_map), None);
    assert_eq!(resolve_filepos_entry("c.html", "filepos+200", &filepos_map, &aid_offset_map), Some((5, 6, 200)));
}

#[test]
fn split_href_at_first_hash() {
    assert_eq!(split_href("a.html#x#y"), ("a.html".to_string(), "x#y".to_string()));
    assert_eq!(split_href("a.html"), ("a.html".to_string(), String::new()));
}

#[test]
fn base32_numerals_are_fixed_width() {
    assert_eq!(write_base32(0, 4), b"0000".to_vec());
    assert_eq!(write_base32(35, 4), b"0013".to_vec());
    assert_eq!(write_base32(31, 2), b"0V".to_vec());
    assert_eq!(write_base32(32 * 32 * 32 * 32 + 1, 4), b"0001".to_vec());
    assert_eq!(write_base32(1, 10), b"0000000001".to_vec());
}

#[test]
fn link_placeholders_number_links() {
    assert_eq!(link_placeholder(1), "kindle:pos:fid:0000:off:0000000001");
    assert_eq!(link_placeholder(33), "kindle:pos:fid:0000:off:0000000011");
}

fn builder_with_links() -> Kf8Builder {
    let mut b = Kf8Builder::empty(metadata("Book"));
    b.register_links(&vec![
        ("ch1.xhtml".to_string(), "sec".to_string()),
        ("ch2.xhtml".to_string(), "filepos250".to_string()),
        ("missing.xhtml".to_string(), "x".to_string()),
    ]);
    b
}

#[test]
fn register_links_hands_out_numbered_placeholders() {
    let b = builder_with_links();
    assert_eq!(b.link_counter, 3);
    assert_eq!(
        b.link_map.get("kindle:pos:fid:0000:off:0000000002"),
        Some(&("ch2.xhtml".to_string(), "filepos250".to_string()))
    );
    assert_eq!(b.link_map.get("kindle:pos:fid:0000:off:0000000004"), None);
}

#[test]
fn resolve_link_placeholders_rewrites_known_targets() {
    let b = builder_with_links();
    let mut id_map = PairMap::new();
    id_map.insert("ch1.xhtml".to_string(), "sec".to_string(), "aid1".to_string());
    let mut aid_offset_map = StrMap::new();
    aid_offset_map.insert("aid1".to_string(), (2, 100, 5000));
    aid_offset_map.insert("aid2".to_string(), (33, 7, 9000));
    let mut filepos_map = StrMap::new();
    filepos_map.insert("ch2.xhtml".to_string(), vec![(200, "aid2".to_string())]);

    let text = b"<a href=\"kindle:pos:fid:0000:off:0000000001\">x</a>\
<a href=\"kindle:pos:fid:0000:off:0000000002\">y</a>\
<a href=\"kindle:pos:fid:0000:off:0000000003\">z</a>";
    let out = b.resolve_link_placeholders(text, &id_map, &aid_offset_map, &filepos_map);
    let expected = b"<a href=\"kindle:pos:fid:0002:off:0000000034\">x</a>\
<a href=\"kindle:pos:fid:0011:off:0000000007\">y</a>\
<a href=\"kindle:pos:fid:0000:off:0000000003\">z</a>";
    assert_eq!(out, expected.to_vec());
    assert_eq!(out.len(), text.len());
}

#[test]
fn resolve_link_placeholders_falls_back_to_file_start() {
    let b = builder_with_links();
    let mut id_map = PairMap::new();
    id_map.insert("ch1.xhtml".to_string(), String::new(), "top".to_string());
    let mut aid_offset_map = StrMap::new();
    aid_offset_map.insert("top".to_string(), (1, 0, 0));
    let filepos_map: StrMap<Vec<(usize, String)>> = StrMap::new();
    let text = b"kindle:pos:fid:0000:off:0000000001 and kindle:pos:fid:0000:off:00000";
    let out = b.resolve_link_placeholders(text, &id_map, &aid_offset_map, &filepos_map);
    assert_eq!(out, b"kindle:pos:fid:0001:off:0000000000 and kindle:pos:fid:0000:off:00000".to_vec());
}

#[test]
fn fdst_record_locates_every_flow() {
    let mut b = Kf8Builder::empty(metadata("T"));
    b.text_length = 10;
    b.css_flows = vec!["ab".to_string(), "cde".to_string()];
    b.build_fdst_record();
    let mut expected = b"FDST".to_vec();
    for v in [12u32, 3, 0, 10, 10, 12, 12, 15] {
        expected.extend(be32(v));
    }
    assert_eq!(b.records.len(), 2);
    assert_eq!(b.records[1], expected);
}

#[test]
fn flis_fcis_eof_records() {
    let mut b = Kf8Builder::empty(metadata("T"));
    b.text_length = 0x0102_0304;
    b.build_flis_fcis_eof();
    assert_eq!(b.records.len(), 4);
    assert_eq!(&b.records[1][..4], b"FLIS");
    assert_eq!(b.records[1].len(), 36);
    assert_eq!(&b.records[2][..4], b"FCIS");
    assert_eq!(&b.records[2][20..24], &[1, 2, 3, 4]);
    assert_eq!(b.records[2].len(), 52);
    assert_eq!(b.records[3], vec![0xe9, 0x8e, 13, 10]);
}

/// The EXTH records as (type, data) pairs.
fn parse_exth(exth: &[u8]) -> Vec<(u32, Vec<u8>)> {
    assert_eq!(&exth[..4], b"EXTH");
    let count = u32::from_be_bytes(exth[8..12].try_into().unwrap());
    let mut pos = 12;
    let mut out = Vec::new();
    for _ in 0..count {
        let code = u32::from_be_bytes(exth[pos..pos + 4].try_into().unwrap());
        let len = u32::from_be_bytes(exth[pos + 4..pos + 8].try_into().unwrap()) as usize;
        out.push((code, exth[pos + 8..pos + len].to_vec()));
        pos += len;
    }
    out
}

#[test]
fn exth_lists_metadata_and_housekeeping_records() {
    let mut md = metadata("Tale");
    md.authors = vec!["Ann".to_string(), "Bob".to_string()];
    md.publisher = Some("Pub".to_string());
    md.language = "en-GB".to_string();
    md.cover_image = Some("img/c.jpg".to_string());
    let mut b = Kf8Builder::empty(md);
    b.image_hrefs = vec!["img/a.png".to_string(), "img/c.jpg".to_string()];
    b.font_hrefs = vec!["f.ttf".to_string()];
    let exth = b.build_exth();
    assert_eq!(exth.len() % 4, 0);
    let recs = parse_exth(&exth);
    let codes: Vec<u32> = recs.iter().map(|r| r.0).collect();
    assert_eq!(
        codes,
        vec![100, 100, 101, 112, 201, 203, 202, 129, 503, 113, 501, 524, 125, 131, 204, 205, 206, 207, 535, 528]
    );
    assert_eq!(recs[0].1, b"Ann".to_vec());
    assert_eq!(recs[3].1, b"boko:Tale".to_vec());
    assert_eq!(recs[4].1, be32(1));
    assert_eq!(recs[7].1, b"kindle:embed:0001".to_vec());
    assert_eq!(recs[11].1, b"en".to_vec());
    assert_eq!(recs[12].1, be32(3));
    assert_eq!(recs[18].1, b"0730-890adc2".to_vec());
}

#[test]
fn exth_uses_identifier_when_present() {
    let mut md = metadata("Tale");
    md.identifier = "urn:x".to_string();
    let b = Kf8Builder::empty(md);
    let recs = parse_exth(&b.build_exth());
    let sid = recs.iter().find(|r| r.0 == 112).unwrap();
    assert_eq!(sid.1, b"calibre:urn:x".to_vec());
    assert!(recs.iter().all(|r| r.0 != 524 && r.0 != 201));
}

#[test]
fn record0_locates_title_after_exth() {
    let mut b = Kf8Builder::empty(metadata("My Book"));
    b.records.push(vec![1]);
    b.records.push(vec![2]);
    b.records.push(vec![3]);
    b.records.push(vec![4]);
    b.text_length = 77;
    b.last_text_record = 1;
    b.build_record0(0);
    let exth = b.build_exth();
    let r0 = &b.records[0];
    let off = 280 + exth.len();
    assert_eq!(&r0[0..2], &[0, 2]);
    assert_eq!(&r0[4..8], &be32(77)[..]);
    assert_eq!(&r0[16..20], b"MOBI");
    assert_eq!(&r0[32..36], &be32(12345)[..]);
    assert_eq!(&r0[84..88], &be32(off as u32)[..]);
    assert_eq!(&r0[88..92], &be32(7)[..]);
    assert_eq!(&r0[280..off], &exth[..]);
    assert_eq!(&r0[off..off + 7], b"My Book");
    assert_eq!(r0.len(), off + 7 + 8192);
    // FDST, FLIS and FCIS are the fourth, third and second record from the end.
    assert_eq!(&r0[16 + 176..16 + 180], &be32(1)[..]);
    assert_eq!(&r0[16 + 184..16 + 188], &be32(3)[..]);
    assert_eq!(&r0[16 + 192..16 + 196], &be32(2)[..]);
    // No NCX entries: only the multibyte trailing byte is declared.
    assert_eq!(&r0[16 + 224..16 + 228], &be32(1)[..]);
    assert_eq!(&r0[16 + 228..16 + 232], &be32(NULL_INDEX)[..]);
}

#[test]
fn pdb_header_lists_record_offsets() {
    let mut b = Kf8Builder::empty(metadata("Hello World"));
    b.records = vec![vec![1, 2], vec![3]];
    let mut out = Vec::new();
    b.write(&mut out, 7);
    let mut name = b"Hello_World".to_vec();
    name.resize(32, 0);
    assert_eq!(&out[..32], &name[..]);
    assert_eq!(&out[36..40], &be32(7)[..]);
    assert_eq!(&out[40..44], &be32(7)[..]);
    assert_eq!(&out[60..68], b"BOOKMOBI");
    assert_eq!(&out[68..72], &be32(3)[..]);
    assert_eq!(&out[76..78], &[0, 2]);
    assert_eq!(&out[78..86], &[0, 0, 0, 96, 0, 0, 0, 0]);
    assert_eq!(&out[86..94], &[0, 0, 0, 98, 0, 0, 0, 2]);
    assert_eq!(&out[94..], &[0, 0, 1, 2, 3]);
}

#[test]
fn pdb_name_is_cut_to_31_bytes() {
    let b = Kf8Builder::empty(metadata("abcdefghijklmnopqrstuvwxyz0123456789"));
    let mut out = Vec::new();
    b.write(&mut out, 0);
    assert_eq!(&out[..31], b"abcdefghijklmnopqrstuvwxyz01234");
    assert_eq!(out[31], 0);
}

#[test]
fn rand_uid_is_one_lcg_step() {
    assert_eq!(rand_uid(0), 12345);
    assert_eq!(rand_uid(1), 1103527590);
    assert_eq!(rand_uid(1 << 32), 12345);
}

fn inflate(bytes: &[u8]) -> Vec<u8> {
    let mut out = Vec::new();
    flate2::read::ZlibDecoder::new(bytes).read_to_end(&mut out).unwrap();
    out
}

#[test]
fn small_font_record_is_plain_zlib() {
    let data = vec![7u8; 3000];
    let rec = write_font_record(&data, 99).unwrap();
    assert_eq!(&rec[..4], b"FONT");
    assert_eq!(&rec[4..8], &be32(3000)[..]);
    assert_eq!(&rec[8..12], &be32(1)[..]);
    assert_eq!(&rec[12..16], &be32(24)[..]);
    assert_eq!(&rec[16..20], &be32(0)[..]);
    assert_eq!(inflate(&rec[24..]), data);
}

#[test]
fn large_font_record_is_obfuscated_and_recoverable() {
    let mut x: u32 = 1;
    let data: Vec<u8> = (0..4000)
        .map(|_| {
            x = x.wrapping_mul(1664525).wrapping_add(1013904223);
            (x >> 24) as u8
        })
        .collect();
    let rec = write_font_record(&data, 42).unwrap();
    assert_eq!(&rec[8..12], &be32(3)[..]);
    assert_eq!(&rec[12..16], &be32(44)[..]);
    assert_eq!(&rec[16..20], &be32(20)[..]);
    let key = rec[24..44].to_vec();
    let mut body = rec[44..].to_vec();
    assert!(body.len() >= 1040);
    for i in 0..1040 {
        body[i] ^= key[i % 20];
    }
    assert_eq!(inflate(&body), data);
    // The key comes from the seed alone.
    let again = assemble_font_record(4000, vec![0u8; 1040], 42);
    assert_eq!(&again[24..44], &key[..]);
}

#[test]
fn guess_media_type_by_extension() {
    assert_eq!(guess_media_type("a/b/C.JPG"), "image/jpeg");
    assert_eq!(guess_media_type("text/ch1.xhtml"), "application/xhtml+xml");
    assert_eq!(guess_media_type("x.woff2"), "font/woff2");
    assert_eq!(guess_media_type("styles/main.css/"), "text/css");
    assert_eq!(guess_media_type("../pics/x.svg"), "image/svg+xml");
    assert_eq!(guess_media_type(".bashrc"), "application/octet-stream");
    assert_eq!(guess_media_type("noext"), "application/octet-stream");
    assert_eq!(guess_media_type("a.tar."), "application/octet-stream");
    assert_eq!(guess_media_type("foo/.."), "application/octet-stream");
    assert_eq!(guess_media_type("x.bin"), "application/octet-stream");
}

fn resource(data: &[u8], media_type: &str) -> Resource {
    Resource { data: data.to_vec(), media_type: media_type.to_string() }
}

fn sample_resources() -> StrMap<Resource> {
    let mut res = StrMap::new();
    res.insert("b.png".to_string(), resource(b"PNG", "image/png"));
    res.insert("a.jpg".to_string(), resource(b"JPG", "image/jpeg"));
    res.insert("f.ttf".to_string(), resource(b"TTF", "font/ttf"));
    res.insert("g.otf".to_string(), resource(b"OTF", "application/vnd.ms-opentype"));
    res.insert("s2.css".to_string(), resource(b"p{}", "text/css"));
    res.insert("s1.css".to_string(), resource(b"h1{}", "text/css"));
    res.insert("c.xhtml".to_string(), resource(b"<html/>", "application/xhtml+xml"));
    res
}

#[test]
fn collect_resources_orders_images_then_fonts() {
    let res = sample_resources();
    let mut b = Kf8Builder::empty(metadata("T"));
    b.collect_resources(&res);
    assert_eq!(b.image_hrefs, vec!["a.jpg".to_string(), "b.png".to_string()]);
    assert_eq!(b.font_hrefs, vec!["f.ttf".to_string(), "g.otf".to_string()]);
    assert_eq!(b.css_flows, vec!["h1{}".to_string(), "p{}".to_string()]);
    assert_eq!(b.resource_map.get("a.jpg"), Some(&1));
    assert_eq!(b.resource_map.get("b.png"), Some(&2));
    assert_eq!(b.resource_map.get("f.ttf"), Some(&3));
    assert_eq!(b.resource_map.get("g.otf"), Some(&4));
    assert_eq!(b.resource_map.get("c.xhtml"), None);
}

#[test]
fn write_resource_records_appends_images_and_fonts() {
    let res = sample_resources();
    let mut b = Kf8Builder::empty(metadata("T"));
    b.collect_resources(&res);
    assert!(b.write_resource_records(&res, 5));
    assert_eq!(b.first_resource_record, 1);
    assert_eq!(b.records.len(), 5);
    assert_eq!(b.records[1], b"JPG".to_vec());
    assert_eq!(b.records[2], b"PNG".to_vec());
    assert_eq!(&b.records[3][..4], b"FONT");
    assert_eq!(inflate(&b.records[4][24..]), b"OTF".to_vec());
}

#[test]
fn no_resources_keeps_null_first_resource() {
    let mut b = Kf8Builder::empty(metadata("T"));
    let res: StrMap<Resource> = StrMap::new();
    assert!(b.write_resource_records(&res, 5));
    assert_eq!(b.first_resource_record, NULL_INDEX);
    assert_eq!(b.records.len(), 1);
}

#[test]
fn css_flows_are_numbered_from_one() {
    let res = sample_resources();
    let m = css_flow_map(&res);
    assert_eq!(m.get("s1.css"), Some(&1));
    assert_eq!(m.get("s2.css"), Some(&2));
    assert_eq!(m.get("a.jpg"), None);
}

#[test]
fn flows_split_into_record_size_chunks() {
    let data = vec![9u8; 5000];
    let chunks = flow_chunks(&data);
    assert_eq!(chunks.len(), 2);
    assert_eq!(chunks[0].len(), 4096);
    assert_eq!(chunks[1].len(), 904);
    assert!(flow_chunks(&[]).is_empty());
}

#[test]
fn text_records_get_indicator_and_padding() {
    let mut b = Kf8Builder::empty(metadata("T"));
    b.push_text_records(vec![vec![1, 2, 3], vec![4]]);
    assert_eq!(b.records, vec![Vec::new(), vec![1, 2, 3, 0], vec![4, 0], vec![0, 0]]);
    assert_eq!(b.last_text_record, 2);
    assert_eq!(b.first_non_text_record, 4);

    let mut c = Kf8Builder::empty(metadata("T"));
    c.push_text_records(vec![vec![1, 2, 3]]);
    assert_eq!(c.records.len(), 2);
    assert_eq!(c.first_non_text_record, 2);
}

#[test]
fn text_flows_join_text_and_css() {
    let mut b = Kf8Builder::empty(metadata("T"));
    let all = b.set_text_flows(b"<p/>", &vec![b"a{}".to_vec(), b"b{}".to_vec()]);
    assert_eq!(all, b"<p/>a{}b{}".to_vec());
    assert_eq!(b.text_length, 4);
    assert_eq!(b.flows_length, 10);
    assert_eq!(b.css_flows, vec!["a{}".to_string(), "b{}".to_string()]);
}

#[test]
fn record_lengths_and_trailing_bytes() {
    let mut b = Kf8Builder::empty(metadata("T"));
    b.push_text_records(vec![vec![1], vec![2]]);
    b.flows_length = 5000;
    assert_eq!(b.text_record_lengths(), vec![4096, 904]);
    // Without NCX entries nothing is appended.
    b.apply_trailing_byte_sequences(vec![vec![0x81], vec![0x82]]);
    assert_eq!(b.records[1], vec![1, 0]);
}

#[test]
fn indices_take_the_next_record_numbers() {
    let mut b = Kf8Builder::empty(metadata("T"));
    b.build_kf8_indices(
        Some((vec![vec![1], vec![2]], Vec::new())),
        Some((vec![vec![3]], vec![4])),
        None,
        Vec::new(),
        Some((vec![vec![5]], Vec::new())),
    );
    assert_eq!(b.skel_index, 1);
    assert_eq!(b.frag_index, 3);
    assert_eq!(b.ncx_index, NULL_INDEX);
    assert_eq!(b.guide_index, 5);
    assert_eq!(b.records.len(), 6);
    assert_eq!(b.records[4], vec![4]);
}

#[test]
fn guide_entries_are_sorted_and_start_is_synthesized() {
    let landmarks = vec![
        Landmark { landmark_type: LandmarkType::Toc, href: "toc.xhtml".to_string(), label: String::new() },
        Landmark { landmark_type: LandmarkType::Cover, href: "c.xhtml#top".to_string(), label: "Cover".to_string() },
        Landmark { landmark_type: LandmarkType::Toc, href: "ch1.xhtml".to_string(), label: "Second".to_string() },
    ];
    let mut id_map = PairMap::new();
    id_map.insert("toc.xhtml".to_string(), String::new(), "t".to_string());
    id_map.insert("c.xhtml".to_string(), "top".to_string(), "c".to_string());
    let mut aid_offset_map = StrMap::new();
    aid_offset_map.insert("t".to_string(), (1, 2, 300));
    aid_offset_map.insert("c".to_string(), (0, 5, 10));
    let entries = collect_guide_entries(&landmarks, None, &id_map, &aid_offset_map);
    let types: Vec<&str> = entries.iter().map(|e| e.guide_type.as_str()).collect();
    assert_eq!(types, vec!["cover", "start", "toc"]);
    assert_eq!(entries[0].title, "Cover");
    assert_eq!(entries[0].pos_fid, (0, 5));
    assert_eq!(entries[1].title, "Beginning");
    assert_eq!(entries[1].pos_fid, (0, 5));
    assert_eq!(entries[2].title, "toc");
    assert_eq!(entries[2].pos_fid, (1, 2));
    assert_eq!(landmark_to_guide_type(LandmarkType::StartReading), Some("start"));
    assert_eq!(landmark_to_guide_type(LandmarkType::Endnotes), Some("notes"));
}

#[test]
fn toc_is_flattened_with_hierarchy_lengths() {
    let toc = vec![
        TocEntry {
            title: "One".to_string(),
            href: "a.xhtml".to_string(),
            children: vec![TocEntry { title: "One.1".to_string(), href: "a.xhtml#s".to_string(), children: Vec::new() }],
        },
        TocEntry { title: "Two".to_string(), href: "b.xhtml".to_string(), children: Vec::new() },
    ];
    let mut id_map = PairMap::new();
    id_map.insert("a.xhtml".to_string(), String::new(), "a".to_string());
    id_map.insert("a.xhtml".to_string(), "s".to_string(), "s".to_string());
    id_map.insert("b.xhtml".to_string(), String::new(), "b".to_string());
    let mut aid_offset_map = StrMap::new();
    aid_offset_map.insert("a".to_string(), (0, 0, 0));
    aid_offset_map.insert("s".to_string(), (0, 40, 40));
    aid_offset_map.insert("b".to_string(), (1, 0, 100));
    let filepos_map: StrMap<Vec<(usize, String)>> = StrMap::new();
    let ncx = flatten_toc(&toc, 150, &id_map, &aid_offset_map, &filepos_map);
    assert_eq!(ncx.len(), 3);
    assert_eq!((ncx[0].pos, ncx[0].length, ncx[0].depth, ncx[0].parent), (0, 100, 0, -1));
    assert_eq!((ncx[0].first_child, ncx[0].last_child), (1, 1));
    assert_eq!((ncx[1].pos, ncx[1].length, ncx[1].depth, ncx[1].parent), (40, 60, 1, 0));
    assert_eq!((ncx[2].pos, ncx[2].length, ncx[2].depth, ncx[2].parent), (100, 50, 0, -1));
    assert_eq!(ncx[2].pos_fid, Some((1, 0)));
    assert_eq!(ncx[1].label, "One.1");
}

#[test]
fn raw_book_context_collects_spine_and_assets() {
    let ctx = BookContext::from_raw(
        vec![(Some("ch1.xhtml".to_string()), b"<a/>".to_vec()), (None, b"<b/>".to_vec())],
        vec![("img/x.PNG".to_string(), b"P1".to_vec()), ("ch1.xhtml".to_string(), b"<A/>".to_vec())],
        Vec::new(),
        metadata("T"),
        Vec::new(),
    );
    assert_eq!(ctx.spine.len(), 2);
    assert_eq!(ctx.spine[1].href, "unknown.xhtml");
    let img = ctx.resources.get("img/x.PNG").unwrap();
    assert_eq!((img.data.clone(), img.media_type.clone()), (b"P1".to_vec(), "image/png".to_string()));
    let ch1 = ctx.resources.get("ch1.xhtml").unwrap();
    assert_eq!(ch1.data, b"<A/>".to_vec());
    let unknown = ctx.resources.get("unknown.xhtml").unwrap();
    assert_eq!((unknown.data.clone(), unknown.media_type.clone()), (b"<b/>".to_vec(), "application/xhtml+xml".to_string()));
    assert!(ctx.landmarks().is_empty());
    let html = ctx.html_sources();
    assert_eq!(html, vec![("ch1.xhtml".to_string(), b"<A/>".to_vec()), ("unknown.xhtml".to_string(), b"<b/>".to_vec())]);
}

#[test]
fn normalized_book_context_names_chapters() {
    let ctx = BookContext::from_normalized(
        "p{}".to_string(),
        vec!["<x/>".to_string(), "<y/>".to_string()],
        vec![("img/a.gif".to_string(), Some(b"G".to_vec())), ("img/b.gif".to_string(), None)],
        Vec::new(),
        metadata("T"),
        Vec::new(),
    );
    assert_eq!(ctx.spine.len(), 2);
    assert_eq!(ctx.spine[1].href, "chapter_1.xhtml");
    assert_eq!(ctx.spine[1].data, b"<y/>".to_vec());
    assert_eq!(ctx.resources.get("style.css").unwrap().media_type, "text/css");
    assert_eq!(ctx.resources.get("chapter_0.xhtml").unwrap().data, b"<x/>".to_vec());
    assert_eq!(ctx.resources.get("img/a.gif").unwrap().media_type, "image/gif");
    assert!(ctx.resources.get("img/b.gif").is_none());
}

#[test]
fn exporter_configuration() {
    let e = Azw3Exporter::new();
    assert!(!e.normalize());
    let e = e.with_config(Azw3Config { normalize: true });
    assert!(e.normalize());
    assert!(!Azw3Exporter::default().normalize());
    assert!(!Azw3Config::default().normalize);
}

fn ncx_entry() -> boko::toc::NcxBuildEntry {
    boko::toc::NcxBuildEntry {
        pos: 0,
        length: 10,
        label: "One".to_string(),
        depth: 0,
        parent: -1,
        first_child: -1,
        last_child: -1,
        pos_fid: Some((0, 0)),
    }
}

#[test]
fn record0_declares_trailers_with_ncx_entries() {
    let mut b = Kf8Builder::empty(metadata("N"));
    for r in 1..5u8 {
        b.records.push(vec![r]);
    }
    b.ncx_entries = vec![ncx_entry()];
    b.build_record0(3);
    assert_eq!(&b.records[0][16 + 224..16 + 228], &be32(3)[..]);
    // With NCX entries the trailers are appended after the indicator byte.
    let mut c = Kf8Builder::empty(metadata("N"));
    c.push_text_records(vec![vec![7], vec![8, 9, 9]]);
    c.ncx_entries = vec![ncx_entry()];
    c.apply_trailing_byte_sequences(vec![vec![0x81], vec![0x82, 0x83]]);
    assert_eq!(c.records[1], vec![7, 0, 0x81]);
    assert_eq!(c.records[2], vec![8, 9, 9, 0, 0x82, 0x83]);
    let tbs = c.tbs_entries();
    assert_eq!(tbs.len(), 1);
    assert_eq!((tbs[0].index, tbs[0].start, tbs[0].length, tbs[0].depth, tbs[0].parent), (0, 0, 10, 0, -1));
}

#[test]
fn finish_records_appends_trailer_records_and_record0() {
    let res = sample_resources();
    let mut b = Kf8Builder::empty(metadata("Fin"));
    b.collect_resources(&res);
    b.push_text_records(vec![vec![1, 2, 3]]);
    b.text_length = 3;
    assert!(b.finish_records(&res, 0));
    // record 0, one text record, four resources, FDST, FLIS, FCIS, EOF
    assert_eq!(b.records.len(), 10);
    assert_eq!(b.first_resource_record, 2);
    assert_eq!(&b.records[6][..4], b"FDST");
    assert_eq!(&b.records[7][..4], b"FLIS");
    assert_eq!(&b.records[8][..4], b"FCIS");
    assert_eq!(b.records[9], vec![0xe9, 0x8e, 13, 10]);
    assert_eq!(&b.records[0][16..20], b"MOBI");
    // FDST record number in the MOBI header
    assert_eq!(&b.records[0][16 + 176..16 + 180], &be32(6)[..]);
}

#[test]
fn book_context_from_either_content() {
    let raw = BookContext::from_book(
        BookContent::Raw { spine: vec![(Some("a.xhtml".to_string()), b"A".to_vec())], assets: Vec::new() },
        Vec::new(),
        metadata("T"),
        Vec::new(),
    );
    assert_eq!(raw.spine[0].href, "a.xhtml");
    let norm = BookContext::from_book(
        BookContent::Normalized { css: String::new(), chapters: vec!["<c/>".to_string()], referenced: Vec::new() },
        Vec::new(),
        metadata("T"),
        Vec::new(),
    );
    assert_eq!(norm.spine[0].href, "chapter_0.xhtml");
    assert!(norm.resources.get("style.css").is_none());
}

#[test]
fn sanitizing_a_title_twice_changes_nothing_more() {
    for t in ["My Book: Vol. 2", "", "a b_c-d", "Ünïcode ✓ title"] {
        let once = sanitize_title(t);
        assert_eq!(sanitize_title(&once), once);
        assert!(once.chars().count() <= t.chars().count());
    }
    assert_eq!(sanitize_title("My Book: Vol. 2"), "My_Book_Vol_2");
}

#[test]
fn filepos_resolvers_agree() {
    let mut filepos_map = StrMap::new();
    filepos_map.insert("f.xhtml".to_string(), vec![(10, "a".to_string()), (300, "b".to_string())]);
    let mut aid_offset_map = StrMap::new();
    aid_offset_map.insert("a".to_string(), (1, 2, 3));
    aid_offset_map.insert("b".to_string(), (4, 5, 6));
    for frag in ["filepos0", "filepos10", "filepos299", "filepos300", "filepos9999", "x"] {
        let full = resolve_filepos_entry("f.xhtml", frag, &filepos_map, &aid_offset_map);
        let short = resolve_filepos_to_offset("f.xhtml", frag, &filepos_map, &aid_offset_map);
        assert_eq!(short, full.map(|(s, o, _)| (s, o)));
    }
}

#[test]
fn unsorted_anchor_lists_still_keep_the_text_length() {
    let b = builder_with_links();
    let id_map = PairMap::new();
    let mut aid_offset_map = StrMap::new();
    aid_offset_map.insert("hi".to_string(), (3, 9, 0));
    aid_offset_map.insert("lo".to_string(), (3, 1, 0));
    let mut filepos_map = StrMap::new();
    // Not in increasing order of position.
    filepos_map.insert("ch2.xhtml".to_string(), vec![(900, "hi".to_string()), (100, "lo".to_string())]);
    let text = b"x kindle:pos:fid:0000:off:0000000002 y";
    let out = b.resolve_link_placeholders(text, &id_map, &aid_offset_map, &filepos_map);
    assert_eq!(out.len(), text.len());
    assert!(out.starts_with(b"x kindle:pos:fid:0003:off:000000000"));
    assert!(out.ends_with(b" y"));
}

#[test]
fn font_records_follow_compression() {
    let mut b = Kf8Builder::empty(metadata("T"));
    let mut res = StrMap::new();
    res.insert("f.otf".to_string(), resource(&[7u8; 50], "font/otf"));
    b.collect_resources(&res);
    assert!(b.write_resource_records(&res, 1));
    assert_eq!(b.first_resource_record, 1);
    assert_eq!(b.records.len(), 2);
    assert_eq!(&b.records[1][0..4], b"FONT");
    assert_eq!(inflate(&b.records[1][24..]), vec![7u8; 50]);
}

fn toc_entry(title: &str, href: &str) -> TocEntry {
    TocEntry { title: title.to_string(), href: href.to_string(), children: Vec::new() }
}

#[test]
fn index_plan_follows_the_tables() {
    let b = Kf8Builder::empty(metadata("T"));
    let toc = vec![toc_entry("One", "a.xhtml")];
    let landmarks = vec![Landmark { landmark_type: LandmarkType::Toc, href: "a.xhtml".to_string(), label: String::new() }];
    let mut id_map = PairMap::new();
    id_map.insert("a.xhtml".to_string(), String::new(), "a".to_string());
    let mut aid_offset_map = StrMap::new();
    aid_offset_map.insert("a".to_string(), (0, 0, 0));
    let filepos_map: StrMap<Vec<(usize, String)>> = StrMap::new();

    let plan = b.plan_kf8_indices(true, 2, 0, &toc, &landmarks, None, &id_map, &aid_offset_map, &filepos_map);
    assert!(plan.skel);
    assert!(!plan.frag);
    assert_eq!(plan.ncx_entries.len(), 1);
    assert_eq!(plan.ncx_entries[0].label, "One");
    let types: Vec<&str> = plan.guide_entries.iter().map(|e| e.guide_type.as_str()).collect();
    assert_eq!(types, vec!["start", "toc"]);

    let plan = b.plan_kf8_indices(true, 0, 3, &Vec::new(), &Vec::new(), None, &id_map, &aid_offset_map, &filepos_map);
    assert!(!plan.skel);
    assert!(plan.frag);
    assert!(plan.ncx_entries.is_empty());
    assert_eq!(plan.guide_entries.len(), 1);

    let plan = b.plan_kf8_indices(false, 2, 3, &toc, &landmarks, None, &id_map, &aid_offset_map, &filepos_map);
    assert!(!plan.skel && !plan.frag);
    assert!(plan.ncx_entries.is_empty() && plan.guide_entries.is_empty());
}
