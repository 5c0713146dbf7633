use ifcmerge::lines::{load_lines, render_lines, parse_entity_line, line_has_comment, ts_replace_line};
use ifcmerge::merge::merge_stores;
use ifcmerge::store::Ifc;
use ifcmerge::tokenizer::dissemble;
use ifcmerge::refs::{shift_refs, heal_rel, merge_ref_lists};
use ifcmerge::add_offset;

fn to_lines(ls: &[&str]) -> Vec<Vec<u8>> {
    ls.iter().map(|s| s.as_bytes().to_vec()).collect()
}

fn store(ls: &[&str]) -> Ifc {
    load_lines(&to_lines(ls))
}

fn merge3(base: &[&str], local: &[&str], remote: &[&str]) -> (Ifc, Vec<String>) {
    let b = store(base);
    let mut l = store(local);
    let mut r = store(remote);
    let lp = b"local.ifc".to_vec();
    let rp = b"remote.ifc".to_vec();
    let (merged, errors) = merge_stores(&b, &mut l, &mut r, &lp, &rp);
    let msgs = errors
        .iter()
        .map(|e| String::from_utf8(e.clone()).unwrap())
        .collect();
    (merged, msgs)
}

fn body_of(s: &Ifc, id: usize) -> Option<String> {
    s.get_body(id).map(|b| String::from_utf8(b).unwrap())
}

fn entity_map(s: &Ifc) -> Vec<(usize, String)> {
    s.file_ids()
        .into_iter()
        .map(|id| (id, body_of(s, id).unwrap()))
        .collect()
}

const BASE: &[&str] = &[
    "ISO-10303-21;",
    "HEADER;",
    "FILE_NAME('a.ifc','2024-01-02T03:04:05+01:00',(''),(''),'x','y','');",
    "ENDSEC;",
    "DATA;",
    "#1=IFCSITE('s1');",
    "#2=IFCSITE('s2');",
    "#7=IFCWALL('w',#1);",
    "#9=IFCRELASSOCIATES('r',(#1,#2));",
    "ENDSEC;",
    "END-ISO-10303-21;",
];

#[test]
fn identity_merge_keeps_entities() {
    let (merged, errors) = merge3(BASE, BASE, BASE);
    assert!(errors.is_empty());
    let base = store(BASE);
    assert_eq!(entity_map(&merged), entity_map(&base));
}

#[test]
fn pure_addition_without_collision() {
    let mut local: Vec<&str> = BASE.to_vec();
    local.insert(9, "#101=IFCDOOR('d1');");
    local.insert(10, "#102=IFCDOOR('d2');");
    let (merged, errors) = merge3(BASE, &local, BASE);
    assert!(errors.is_empty());
    assert_eq!(body_of(&merged, 101).unwrap(), "IFCDOOR('d1')");
    assert_eq!(body_of(&merged, 102).unwrap(), "IFCDOOR('d2')");
    assert_eq!(body_of(&merged, 7).unwrap(), "IFCWALL('w',#1)");
    assert_eq!(merged.file_ids().len(), store(BASE).file_ids().len() + 2);
}

#[test]
fn id_collision_renumbers_local_additions() {
    let base = &[
        "DATA;",
        "#50=IFCSITE('fifty');",
        "#100=IFCSITE('hundred');",
    ];
    let local = &[
        "DATA;",
        "#50=IFCSITE('fifty');",
        "#100=IFCSITE('hundred');",
        "#101=IFCDOOR('d',#101,#50);",
    ];
    let remote = &[
        "DATA;",
        "#50=IFCSITE('fifty');",
        "#100=IFCSITE('hundred');",
        "#101=IFCWINDOW('w1');",
        "#102=IFCWINDOW('w2');",
        "#103=IFCWINDOW('w3');",
    ];
    let (merged, errors) = merge3(base, local, remote);
    assert!(errors.is_empty());
    // offset = 103 - 100 = 3: local's #101 becomes #104, its self-reference
    // moves with it, its ancestor reference #50 stays.
    assert_eq!(body_of(&merged, 104).unwrap(), "IFCDOOR('d',#104,#50)");
    assert_eq!(body_of(&merged, 101).unwrap(), "IFCWINDOW('w1')");
    assert_eq!(body_of(&merged, 102).unwrap(), "IFCWINDOW('w2')");
    assert_eq!(body_of(&merged, 103).unwrap(), "IFCWINDOW('w3')");
    let ids = merged.file_ids();
    assert_eq!(ids, vec![50, 100, 101, 102, 103, 104]);
}

#[test]
fn deletion_against_modification_conflicts() {
    let mut local: Vec<&str> = BASE.to_vec();
    local.remove(7); // drop #7=IFCWALL
    let mut remote: Vec<&str> = BASE.to_vec();
    remote[7] = "#7=IFCWALL('w-renamed',#1);";
    let (merged, errors) = merge3(BASE, &local, &remote);
    assert_eq!(errors.len(), 1);
    assert_eq!(errors[0], "local.ifc deleted entity #7 modified in remote.ifc!");
    // The entity is retained, overridden by the modifying side.
    assert_eq!(body_of(&merged, 7).unwrap(), "IFCWALL('w-renamed',#1)");
}

#[test]
fn relationship_deletion_heals_to_empty_list() {
    let mut local: Vec<&str> = BASE.to_vec();
    local.remove(8); // drop #9=IFCRELASSOCIATES
    let mut remote: Vec<&str> = BASE.to_vec();
    remote[8] = "#9=IFCRELASSOCIATES('r',(#1));";
    let (merged, errors) = merge3(BASE, &local, &remote);
    assert!(errors.is_empty(), "unexpected errors: {:?}", errors);
    assert_eq!(body_of(&merged, 9).unwrap(), "IFCRELASSOCIATES('r',())");
}

#[test]
fn relationship_heal_wins_even_when_references_were_added() {
    let mut local: Vec<&str> = BASE.to_vec();
    local.remove(8); // drop #9=IFCRELASSOCIATES
    let mut remote: Vec<&str> = BASE.to_vec();
    remote[8] = "#9=IFCRELASSOCIATES('r',(#1,#2,#7));";
    let (merged, errors) = merge3(BASE, &local, &remote);
    assert!(errors.is_empty(), "unexpected errors: {:?}", errors);
    // the emptied reference list is the final body: the healed entity does
    // not flow into the attribute-level re-merge
    assert_eq!(body_of(&merged, 9).unwrap(), "IFCRELASSOCIATES('r',())");
}

#[test]
fn reference_list_three_way_merge() {
    let base = &["DATA;", "#5=IFCGROUP('g',(#1,#2,#3));"];
    let local = &["DATA;", "#5=IFCGROUP('g',(#1,#2,#3,#4));"];
    let remote = &["DATA;", "#5=IFCGROUP('g',(#1,#3,#5));"];
    let (merged, errors) = merge3(base, local, remote);
    assert!(errors.is_empty(), "unexpected errors: {:?}", errors);
    assert_eq!(body_of(&merged, 5).unwrap(), "IFCGROUP('g',(#1,#3,#4,#5))");
}

#[test]
fn round_trip_preserves_entity_map() {
    let s = store(BASE);
    let now = b"2026-01-02T03:04:05+00:00".to_vec();
    let rendered = render_lines(&s, &now);
    let reparsed = load_lines(&rendered);
    assert_eq!(entity_map(&s), entity_map(&reparsed));
}

#[test]
fn rendered_timestamp_is_replaced() {
    let s = store(BASE);
    let now = b"2026-01-02T03:04:05+00:00".to_vec();
    let rendered: Vec<String> = render_lines(&s, &now)
        .into_iter()
        .map(|l| String::from_utf8(l).unwrap())
        .collect();
    assert_eq!(
        rendered[2],
        "FILE_NAME('a.ifc','2026-01-02T03:04:05+00:00',(''),(''),'x','y','');"
    );
    // entity records follow the data-section marker, ascending
    let data_at = rendered.iter().position(|l| l == "DATA;").unwrap();
    assert_eq!(rendered[data_at + 1], "#1=IFCSITE('s1');");
    assert_eq!(rendered[data_at + 4], "#9=IFCRELASSOCIATES('r',(#1,#2));");
}

#[test]
fn required_reference_guard_blocks_merge() {
    let mut local: Vec<&str> = BASE.to_vec();
    local.insert(9, "#41=IFCDOOR('d',#2);");
    let mut remote: Vec<&str> = BASE.to_vec();
    remote.remove(6); // remote deletes #2
    let (_merged, errors) = merge3(BASE, &local, &remote);
    assert!(errors
        .iter()
        .any(|e| e == "entity #2 required by local.ifc deleted in remote.ifc!"));
}

#[test]
fn class_change_is_reported() {
    let mut local: Vec<&str> = BASE.to_vec();
    local[7] = "#7=IFCSLAB('w',#1);";
    let (_merged, errors) = merge3(BASE, &local, BASE);
    assert_eq!(errors, vec!["entity #7 class changed in local.ifc!"]);
}

#[test]
fn attribute_conflict_is_reported() {
    let mut local: Vec<&str> = BASE.to_vec();
    local[7] = "#7=IFCWALL('left',#1);";
    let mut remote: Vec<&str> = BASE.to_vec();
    remote[7] = "#7=IFCWALL('right',#1);";
    let (merged, errors) = merge3(BASE, &local, &remote);
    assert_eq!(errors, vec!["entity #7 attribute [1] conflict!"]);
    // local's value is kept as the best effort
    assert_eq!(body_of(&merged, 7).unwrap(), "IFCWALL('left',#1)");
}

#[test]
fn owner_history_churn_is_not_a_conflict() {
    let base = &["DATA;", "#3=IfcOwnerHistory('a',1);"];
    let local = &["DATA;", "#3=IfcOwnerHistory('b',2);"];
    let remote = &["DATA;", "#3=IfcOwnerHistory('c',3);"];
    let (merged, errors) = merge3(base, local, remote);
    assert!(errors.is_empty());
    assert_eq!(body_of(&merged, 3).unwrap(), "IfcOwnerHistory('b',2)");
}

#[test]
fn dissemble_splits_top_level_attributes() {
    let split = |s: &str| -> Vec<String> {
        dissemble(&s.as_bytes().to_vec())
            .into_iter()
            .map(|v| String::from_utf8(v).unwrap())
            .collect()
    };
    assert_eq!(split("'a,b',(1,2),3"), vec!["'a,b'", "(1,2)", "3"]);
    assert_eq!(split("$,#12,(#1,#2)"), vec!["$", "#12", "(#1,#2)"]);
    assert_eq!(split(" x , y "), vec!["x", "y"]);
    assert_eq!(split(""), Vec::<String>::new());
    assert_eq!(split("((1,2),(3,4))"), vec!["((1,2),(3,4))"]);
    // parentheses inside a quoted literal are ordinary characters
    assert_eq!(split("'a)b',c"), vec!["'a)b'", "c"]);
    assert_eq!(split("'a(b',c"), vec!["'a(b'", "c"]);
}

#[test]
fn entity_lines_parse_and_others_do_not() {
    let p = |s: &str| parse_entity_line(&s.as_bytes().to_vec());
    let (id, body) = p("#42=IFCWALL('w');").unwrap();
    assert_eq!(id, 42);
    assert_eq!(String::from_utf8(body).unwrap(), "IFCWALL('w')");
    assert!(p("HEADER;").is_none());
    assert!(p("#x=1;").is_none());
    assert!(p("#42=missing-semicolon").is_none());
    // the body runs to the last semicolon of the line
    let (_, body2) = p("#1=A;B;").unwrap();
    assert_eq!(String::from_utf8(body2).unwrap(), "A;B");
}

#[test]
fn comment_lines_are_dropped_on_load() {
    assert!(line_has_comment(&b"/* a comment */".to_vec()));
    assert!(!line_has_comment(&b"/* unterminated".to_vec()));
    assert!(!line_has_comment(&b"*/ backwards /*".to_vec()));
    let s = store(&["DATA;", "/* note */", "keep-me", "#1=A;"]);
    let rendered = render_lines(&s, &b"now".to_vec());
    let texts: Vec<String> = rendered
        .into_iter()
        .map(|l| String::from_utf8(l).unwrap())
        .collect();
    assert!(texts.contains(&"keep-me".to_string()));
    assert!(!texts.iter().any(|l| l.contains("note")));
}

#[test]
fn add_offset_shifts_only_above_max() {
    assert_eq!(add_offset(101, 100, 3), 104);
    assert_eq!(add_offset(100, 100, 3), 100);
    assert_eq!(add_offset(50, 100, 3), 50);
    assert_eq!(add_offset(usize::MAX, 100, 3), usize::MAX);
}

#[test]
fn shift_refs_rewrites_tokens() {
    let out = shift_refs(&b"IFCDOOR('d',#101,#50)".to_vec(), 100, 3);
    assert_eq!(String::from_utf8(out).unwrap(), "IFCDOOR('d',#104,#50)");
    let out2 = shift_refs(&b"#007,#101".to_vec(), 100, 3);
    assert_eq!(String::from_utf8(out2).unwrap(), "#7,#104");
}

#[test]
fn heal_rel_empties_first_reference_run() {
    let out = heal_rel(&b"IFCREL('r',(#1,#2),(#3))".to_vec());
    assert_eq!(String::from_utf8(out).unwrap(), "IFCREL('r',(),(#3))");
    let out2 = heal_rel(&b"IFCREL('r')".to_vec());
    assert_eq!(String::from_utf8(out2).unwrap(), "IFCREL('r')");
}

#[test]
fn merge_ref_lists_applies_union_minus_removals() {
    let b = b"(#1,#2,#3)".to_vec();
    let l = b"(#1,#2,#3,#4)".to_vec();
    let r = b"(#1,#3,#5)".to_vec();
    let out = merge_ref_lists(&b, &l, &r);
    assert_eq!(String::from_utf8(out).unwrap(), "(#1,#3,#4,#5)");
}

#[test]
fn ts_replace_rewrites_first_timestamp() {
    let line = b"FILE_NAME('a','2024-01-02T03:04:05+01:00');".to_vec();
    let now = b"2026-12-31T23:59:59-05:00".to_vec();
    let out = ts_replace_line(&line, &now);
    assert_eq!(
        String::from_utf8(out).unwrap(),
        "FILE_NAME('a','2026-12-31T23:59:59-05:00');"
    );
    let plain = b"no timestamp here".to_vec();
    assert_eq!(ts_replace_line(&plain, &now), plain);
}
