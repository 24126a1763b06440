use html_dom::document::{Document, NodeOrText};
use html_dom::node::{Attribute, QualName};
use html_dom::render::{annotate_document, parse_vision, RenderNodeData, Vision};
use html_dom::style::{parse_style_info, Display, Float, Overflow, Position, StyleIndex, StyleInfo, TextAlign};
use html_dom::text::{parse_i32, parse_u32, split};

#[test]
fn it_works() {
    let result = 2 + 2;
    assert_eq!(result, 4);
}

fn record(values: &[(usize, &str)], len: usize) -> String {
    let mut items = vec![String::new(); len];
    for (i, v) in values {
        items[*i] = v.to_string();
    }
    items.join(";")
}

#[test]
fn style_record_fields() {
    let s = record(&[(8, "3"), (22, "16"), (39, "2"), (40, "1"), (41, "3"), (43, "2"), (46, "2"), (50, "-7")], 51);
    let mut style = StyleInfo::default();
    parse_style_info(&s, &mut style);
    assert_eq!(style.border_bottom_width, 3);
    assert_eq!(style.font_size, 16);
    assert_eq!(style.display, Display::Block);
    assert_eq!(style.float_, Float::Left);
    assert_eq!(style.overflow_x, Overflow::Auto);
    assert_eq!(style.overflow_y, Overflow::Visible);
    assert_eq!(style.position, Position::Fixed);
    assert_eq!(style.text_align, TextAlign::Center);
    assert_eq!(style.z_index, -7);
    assert_eq!(style.color, 0);
}

#[test]
fn short_style_record_keeps_values() {
    let mut style = StyleInfo::default();
    style.z_index = 9;
    style.display = Display::Table;
    parse_style_info(&record(&[(8, "x"), (11, "5")], 12), &mut style);
    assert_eq!(style.border_bottom_width, 0);
    assert_eq!(style.border_left_width, 5);
    assert_eq!(style.z_index, 9);
    assert_eq!(style.display, Display::Table);
}

#[test]
fn unknown_kind_codes_give_defaults() {
    let mut style = StyleInfo::default();
    style.display = Display::Block;
    style.float_ = Float::Right;
    parse_style_info(&record(&[(39, "99"), (40, "-1")], 41), &mut style);
    assert_eq!(style.display, Display::Inline);
    assert_eq!(style.float_, Float::FloatNone);
}

#[test]
fn style_indices() {
    assert_eq!(StyleIndex::border_bottom_width.index(), 8);
    assert_eq!(StyleIndex::z_index.index(), 50);
    assert_eq!(Display::from_u32(18), Some(Display::Inherit));
    assert_eq!(Display::from_u32(19), None);
    assert_eq!(TextAlign::from_u32(4), Some(TextAlign::TextAlignInherit));
    assert_eq!(Position::default(), Position::Static);
    assert_eq!(Overflow::from_u32(5), Some(Overflow::NoContent));
}

#[test]
fn numbers_and_split() {
    assert_eq!(parse_vision("-12;+7;0;007;1"), Some(Vision { width: -12, height: 7, xpos: 0, ypos: 7, visible: 1 }));
    assert_eq!(parse_vision("2147483648;1;2;3;4;5"), Some(Vision { width: 1, height: 2, xpos: 3, ypos: 4, visible: 5 }));
    assert_eq!(parse_vision(" 1;2;3;4;5"), None);
    assert_eq!(parse_vision("1;2;3;4;;5"), Some(Vision { width: 1, height: 2, xpos: 3, ypos: 4, visible: 5 }));
    let mut style = StyleInfo::default();
    style.display = Display::Block;
    parse_style_info(&record(&[(39, "-0")], 40), &mut style);
    assert_eq!(style.display, Display::Inline);
    parse_style_info(&record(&[(39, "+8")], 40), &mut style);
    assert_eq!(style.display, Display::Table);
    assert_eq!(split("a;;b", ';'), vec!["a".to_string(), String::new(), "b".to_string()]);
    assert_eq!(split("", ';'), vec![String::new()]);
    assert_eq!(split(";", ';'), vec![String::new(), String::new()]);
}

#[test]
fn vision_record() {
    assert_eq!(parse_vision("10;20;30;40;1"), Some(Vision { width: 10, height: 20, xpos: 30, ypos: 40, visible: 1 }));
    assert_eq!(parse_vision("10;x;20;30;40;1"), Some(Vision { width: 10, height: 20, xpos: 30, ypos: 40, visible: 1 }));
    assert_eq!(parse_vision("1;2;3;4"), None);
    assert_eq!(parse_vision("1;2;3;4;5;6"), None);
    assert_eq!(Vision::default(), Vision { width: -1, height: -1, xpos: -1, ypos: -1, visible: -1 });
    let d = RenderNodeData::default();
    assert!(!d.visible());
}

fn qn(local: &str) -> QualName {
    QualName { prefix: None, ns: "http://www.w3.org/1999/xhtml".to_string(), local: local.to_string() }
}

#[test]
fn annotation_numbers_and_reads_records() {
    let mut doc = Document::new(RenderNodeData::default());
    let attrs = vec![
        Attribute { name: qn("surface_vision_info"), value: "5;6;7;8;1".to_string() },
        Attribute { name: qn("class"), value: "k".to_string() },
        Attribute { name: qn("dom_style_info"), value: record(&[(22, "12")], 23) },
    ];
    let body = doc.create_element(qn("body"), attrs, RenderNodeData::default(), RenderNodeData::default());
    doc.append(0, NodeOrText::AppendNode(body), RenderNodeData::default());
    doc.append(body, NodeOrText::AppendText("x".to_string()), RenderNodeData::default());
    annotate_document(&mut doc);
    assert_eq!(doc.dom.get(0).custom_node_data().id, 1);
    let b = doc.dom.get(body);
    assert_eq!(b.custom_node_data().id, 2);
    assert_eq!(b.custom_node_data().vision, Vision { width: 5, height: 6, xpos: 7, ypos: 8, visible: 1 });
    assert!(b.custom_node_data().visible());
    assert_eq!(b.custom_node_data().style.font_size, 12);
    assert_eq!(b.attrs().len(), 1);
    assert_eq!(b.attrs()[0].name.local, "class");
    let t = doc.dom.children(body)[0];
    assert_eq!(doc.dom.get(t).custom_node_data().id, 3);
}

#[test]
fn decimal_numbers() {
    assert_eq!(parse_i32("-2147483648"), Some(i32::MIN));
    assert_eq!(parse_i32("2147483647"), Some(i32::MAX));
    assert_eq!(parse_i32("2147483648"), None);
    assert_eq!(parse_i32("99999999999999999999"), None);
    assert_eq!(parse_i32("+"), None);
    assert_eq!(parse_i32("-"), None);
    assert_eq!(parse_i32(""), None);
    assert_eq!(parse_i32("1_0"), None);
    assert_eq!(parse_i32("+-1"), None);
    assert_eq!(parse_u32("4294967295"), Some(u32::MAX));
    assert_eq!(parse_u32("4294967296"), None);
    assert_eq!(parse_u32("-1"), None);
    assert_eq!(parse_u32("+0012"), Some(12));
}
