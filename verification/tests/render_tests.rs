use serpyco_rs::msgpack_parser::MsgpackParser;
use serpyco_rs::value_render::{RenderAction, ValueRender};

fn render(bytes: &[u8]) -> String {
    let mut p = MsgpackParser::new(bytes);
    let mut out = String::new();
    let mut walk = ValueRender::new(&p);
    loop {
        match walk.run(&mut p, &mut out).ok().unwrap() {
            RenderAction::Continue => {}
            RenderAction::NeedFloat { bits, single } => {
                let v = if single { f64::from(f32::from_bits(bits as u32)) } else { f64::from_bits(bits) };
                out.push_str(ryu::Buffer::new().format(v));
            }
            RenderAction::Done => break,
        }
    }
    assert!(p.finish().is_ok());
    out
}

#[test]
fn renders_nested_values_python_style() {
    let bytes = [
        0x82, 0xa1, b'a', 0x94, 0x01, 0xa4, b'i', b't', b'\'', b's', 0xc0, 0xc3, 0xa1, b'b', 0xc4, 0x01, 0x00,
    ];
    assert_eq!(render(&bytes), "{'a': [1, 'it\\'s', None, True], 'b': b'\\x00'}");
}

#[test]
fn renders_top_level_string_in_double_quotes() {
    assert_eq!(render(&[0xa2, b'h', b'i']), "\"hi\"");
    assert_eq!(render(&[0x90]), "[]");
    assert_eq!(render(&[0x80]), "{}");
    assert_eq!(render(&[0xff]), "-1");
    assert_eq!(render(&[0xc2]), "False");
}

#[test]
fn renders_floats_through_the_caller() {
    let mut b = vec![0x92, 0xcb];
    b.extend_from_slice(&1.5f64.to_bits().to_be_bytes());
    b.push(0xca);
    b.extend_from_slice(&0.5f32.to_bits().to_be_bytes());
    assert_eq!(render(&b), "[1.5, 0.5]");
}

fn long_str(n: usize) -> Vec<u8> {
    let mut b = vec![0xda, (n >> 8) as u8, n as u8];
    b.extend(std::iter::repeat(b'a').take(n));
    b
}

#[test]
fn budget_cuts_long_text_and_skips_the_rest() {
    let out = render(&long_str(3000));
    assert_eq!(out, format!("\"{}\"…", "a".repeat(2048)));
    let mut b = vec![0x92];
    b.extend(long_str(3000));
    b.extend(long_str(3000));
    let out = render(&b);
    assert_eq!(out, format!("['{}'……]", "a".repeat(2048)));
}

#[test]
fn deep_nesting_is_cut() {
    let mut b = vec![0x91u8; 70];
    b.push(0x01);
    let out = render(&b);
    assert_eq!(out, format!("{}…{}", "[".repeat(64), "]".repeat(64)));
}

#[test]
fn malformed_input_is_an_error() {
    let bytes = [0x92, 0x01];
    let mut p = MsgpackParser::new(&bytes);
    let mut out = String::new();
    let mut walk = ValueRender::new(&p);
    let mut failed = false;
    for _ in 0..10 {
        match walk.step(&mut p, &mut out) {
            Ok(RenderAction::Done) => break,
            Ok(_) => {}
            Err(_) => {
                failed = true;
                break;
            }
        }
    }
    assert!(failed);
}

#[test]
fn rendering_consumes_exactly_the_value() {
    let mut b = vec![0x92, 0x91, 0x01];
    b.extend(long_str(3000));
    b.push(0x07);
    let mut p = MsgpackParser::new(&b);
    let mut out = String::new();
    let mut walk = ValueRender::new(&p);
    while walk.run(&mut p, &mut out).ok().unwrap() != RenderAction::Done {}
    assert_eq!(out, format!("[[1], '{}'…]", "a".repeat(2048)));
    assert_eq!(p.depth(), 0);
    p.peek().ok().unwrap();
    assert!(p.read_number().is_ok());
    assert!(p.finish().is_ok());
}

#[test]
fn renders_map_with_nested_list_and_separators() {
    let bytes = [0x82, 0xa1, 0x61, 0x92, 0xc3, 0xc0, 0xa1, 0x62, 0xa1, 0x78];
    let mut p = MsgpackParser::new(&bytes);
    let mut out = String::new();
    let mut walk = ValueRender::new(&p);
    loop {
        match walk.step(&mut p, &mut out).ok().unwrap() {
            RenderAction::Done => break,
            _ => {}
        }
    }
    assert_eq!(out, "{'a': [True, None], 'b': 'x'}");
    assert!(p.finish().is_ok());
}
