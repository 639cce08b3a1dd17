use boko::links::ChapterId;
use boko::positions::{
    build_container_entity_map_fragment, build_location_map_fragment, build_position_id_map_fragment,
    build_position_map_fragment, decimal_string, ExportContext, IonValue, KfxFragment,
};
use boko::strmap::StrMap;

const ID: u64 = 155;
const OFFSET: u64 = 143;
const CONTAINS: u64 = 181;
const SECTION_NAME: u64 = 174;
const PID: u64 = 184;
const EID: u64 = 185;
const LOCATIONS: u64 = 182;

fn context() -> ExportContext {
    let mut symbols = StrMap::new();
    symbols.insert("c0".to_string(), 900);
    symbols.insert("c1".to_string(), 901);
    symbols.insert("img1".to_string(), 910);
    symbols.insert("resource/img1".to_string(), 911);
    symbols.insert("img2".to_string(), 920);
    symbols.insert("rsc".to_string(), 930);
    ExportContext {
        cover_fragment_id: Some(50),
        cover_content_id: Some(51),
        section_ids: vec![700, 701, 702],
        // Listed out of fragment-id order on purpose.
        chapter_fragments: vec![(ChapterId(2), 80), (ChapterId(1), 60)],
        content_ids_by_chapter: vec![(ChapterId(1), vec![61, 62]), (ChapterId(2), vec![81])],
        content_id_lengths: vec![(51, 0), (61, 10), (62, 5)],
        symbols,
        section_resource_deps: vec![
            ("c1".to_string(), vec!["img2".to_string(), "img1".to_string()]),
            ("c0".to_string(), Vec::new()),
            ("nosym".to_string(), vec!["img1".to_string()]),
        ],
    }
}

fn fields(v: &IonValue) -> &Vec<(u64, IonValue)> {
    match v {
        IonValue::Struct(f) => f,
        _ => panic!("not a struct"),
    }
}

fn items(v: &IonValue) -> &Vec<IonValue> {
    match v {
        IonValue::List(l) => l,
        _ => panic!("not a list"),
    }
}

fn ints(v: &IonValue) -> Vec<i64> {
    items(v)
        .iter()
        .map(|x| match x {
            IonValue::Int(i) => *i,
            _ => panic!("not an int"),
        })
        .collect()
}

fn int_of(v: &IonValue) -> i64 {
    match v {
        IonValue::Int(i) => *i,
        _ => panic!("not an int"),
    }
}

fn sym_of(v: &IonValue) -> u64 {
    match v {
        IonValue::Symbol(s) => *s,
        _ => panic!("not a symbol"),
    }
}

#[test]
fn singleton_fragments_are_named_by_type() {
    let f = KfxFragment::singleton(264, IonValue::Int(1));
    assert_eq!(f.fid, "$264");
    assert_eq!(f.ftype, 264);
    assert_eq!(decimal_string(0), "0");
    assert_eq!(decimal_string(1234567), "1234567");
}

#[test]
fn position_map_lists_sections_in_fragment_order() {
    let ctx = context();
    let frag = build_position_map_fragment(&ctx);
    assert_eq!(frag.fid, "$264");
    let entries = items(&frag.value);
    assert_eq!(entries.len(), 3);
    let cover = fields(&entries[0]);
    assert_eq!(cover[0].0, CONTAINS);
    assert_eq!(ints(&cover[0].1), vec![50, 51]);
    assert_eq!(cover[1].0, SECTION_NAME);
    assert_eq!(sym_of(&cover[1].1), 700);
    let first = fields(&entries[1]);
    assert_eq!(ints(&first[0].1), vec![60, 61, 62]);
    assert_eq!(sym_of(&first[1].1), 701);
    let second = fields(&entries[2]);
    assert_eq!(ints(&second[0].1), vec![80, 81]);
    assert_eq!(sym_of(&second[1].1), 702);
}

#[test]
fn position_id_map_accumulates_lengths() {
    let ctx = context();
    let frag = build_position_id_map_fragment(&ctx);
    assert_eq!(frag.fid, "$265");
    let entries = items(&frag.value);
    let rows: Vec<(u64, i64, u64, i64)> = entries
        .iter()
        .map(|e| {
            let f = fields(e);
            (f[0].0, int_of(&f[0].1), f[1].0, int_of(&f[1].1))
        })
        .collect();
    assert_eq!(
        rows,
        vec![(EID, 51, PID, 0), (EID, 61, PID, 1), (EID, 62, PID, 11), (EID, 81, PID, 16), (EID, 0, PID, 17)]
    );
}

#[test]
fn location_map_has_one_location_per_content_id() {
    let ctx = context();
    let frag = build_location_map_fragment(&ctx);
    assert_eq!(frag.fid, "$550");
    let outer = items(&frag.value);
    assert_eq!(outer.len(), 1);
    let inner = fields(&outer[0]);
    assert_eq!(inner[0].0, LOCATIONS);
    let locs: Vec<(u64, i64, u64, i64)> = items(&inner[0].1)
        .iter()
        .map(|e| {
            let f = fields(e);
            (f[0].0, int_of(&f[0].1), f[1].0, int_of(&f[1].1))
        })
        .collect();
    assert_eq!(locs, vec![(ID, 51, OFFSET, 0), (ID, 61, OFFSET, 0), (ID, 62, OFFSET, 0), (ID, 81, OFFSET, 0)]);
}

#[test]
fn container_entity_map_lists_entities_and_dependencies() {
    let ctx = context();
    let frags = vec![
        KfxFragment::singleton(264, IonValue::Int(0)),
        KfxFragment { ftype: 260, fid: "c0".to_string(), value: IonValue::Int(0) },
        KfxFragment { ftype: 260, fid: "unknown".to_string(), value: IonValue::Int(0) },
        KfxFragment { ftype: 164, fid: "img1".to_string(), value: IonValue::Int(0) },
    ];
    let frag = build_container_entity_map_fragment("CR!BOOK", &frags, &ctx);
    assert_eq!(frag.fid, "$419");
    let top = fields(&frag.value);
    assert_eq!(top.len(), 2);
    assert_eq!(top[0].0, 252);
    let containers = items(&top[0].1);
    let container = fields(&containers[0]);
    match &container[0].1 {
        IonValue::String(s) => assert_eq!(s, "CR!BOOK"),
        _ => panic!("container id must be a string"),
    }
    let names: Vec<u64> = items(&container[1].1).iter().map(sym_of).collect();
    assert_eq!(names, vec![900, 910]);
    assert_eq!(top[1].0, 253);
    let deps: Vec<(u64, Vec<u64>)> = items(&top[1].1)
        .iter()
        .map(|d| {
            let f = fields(d);
            (sym_of(&f[0].1), items(&f[1].1).iter().map(sym_of).collect())
        })
        .collect();
    // c1 needs img2 and img1; img1 then needs its raw media (img2 has none).
    assert_eq!(deps, vec![(901, vec![920, 910]), (910, vec![911])]);
}

#[test]
fn container_entity_map_without_dependencies_has_one_field() {
    let mut ctx = context();
    ctx.section_resource_deps = Vec::new();
    let frag = build_container_entity_map_fragment("X", &Vec::new(), &ctx);
    let top = fields(&frag.value);
    assert_eq!(top.len(), 1);
    let containers = items(&top[0].1);
    assert!(items(&fields(&containers[0])[1].1).is_empty());
}

#[test]
fn position_id_and_location_maps_follow_one_chapter_order() {
    // Two chapters with the same fragment id keep their listed order in
    // both maps.
    let mut ctx = context();
    ctx.chapter_fragments = vec![(ChapterId(2), 60), (ChapterId(1), 60)];
    let pid = build_position_id_map_fragment(&ctx);
    let loc = build_location_map_fragment(&ctx);
    let pid_ids: Vec<i64> = items(&pid.value).iter().map(|e| int_of(&fields(e)[0].1)).collect();
    let outer = items(&loc.value);
    let loc_ids: Vec<i64> = items(&fields(&outer[0])[0].1).iter().map(|e| int_of(&fields(e)[0].1)).collect();
    assert_eq!(loc_ids, vec![51, 81, 61, 62]);
    assert_eq!(pid_ids, vec![51, 81, 61, 62, 0]);
}
