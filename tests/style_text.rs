use osm_render::parse::{parse_style, ArgValue, Decimal, ParseError};
use osm_render::style::{Color, Command, DrawKind, Filter, FilterExpr, FilterType};

const STYLE: &str = r#"
meta { width 210; height 297.5; dpi 300; scale 10000; center 515000000 -1200000; }
// roads first
layer "roads" {
  keep way && (highway = "*" || !name = "x*");
  take 10;
  draw Outline(color: #ff8000, width: 1.5, dash: "2,1");
  sub { remove role = "inner"; draw Dot(color: random, radius: -2); }
  offset name { "Foo": (offset: 1 2, rename: "Bar"); "": (scale: 0.5); }
}
layer "empty" { }
"#;

#[test]
fn parses_meta_and_layers() {
    let st = parse_style(STYLE).unwrap();
    assert_eq!(st.meta.height, Decimal { mantissa: 2975, scale: 1 });
    assert_eq!(st.meta.center, (Decimal { mantissa: 515000000, scale: 0 }, Decimal { mantissa: -1200000, scale: 0 }));
    assert_eq!(st.layers.len(), 2);
    assert_eq!(st.layers[0].name, "roads");
    assert!(st.layers[1].commands.is_empty());
    let c = &st.layers[0].commands;
    assert_eq!(c.len(), 5);
    match &c[0] {
        Command::Filter(FilterType::Keep, FilterExpr::And(a, b)) => {
            assert!(matches!(**a, FilterExpr::Filter(Filter::IsWay)));
            match &**b {
                FilterExpr::Or(x, y) => {
                    assert!(matches!(&**x, FilterExpr::Filter(Filter::Match(k, v)) if k == "highway" && v == "*"));
                    assert!(matches!(&**y, FilterExpr::Not(_)));
                }
                _ => panic!("expected an or"),
            }
        }
        _ => panic!("expected a keep filter"),
    }
    assert!(matches!(c[1], Command::Take(10)));
    match &c[2] {
        Command::DrawFunc { ty: DrawKind::Outline, args } => {
            assert_eq!(args.len(), 3);
            assert!(matches!(&args[0].1, ArgValue::Color(col) if *col == Color { r: 255, g: 128, b: 0 }));
            assert!(matches!(&args[1].1, ArgValue::Number(d) if *d == Decimal { mantissa: 15, scale: 1 }));
            assert!(matches!(&args[2].1, ArgValue::Str(s) if s == "2,1"));
        }
        _ => panic!("expected an outline"),
    }
    match &c[3] {
        Command::Sub(sub) => {
            assert_eq!(sub.len(), 2);
            assert!(matches!(&sub[0], Command::Filter(FilterType::Remove, FilterExpr::Filter(Filter::MatchRole(r))) if r == "inner"));
            assert!(matches!(&sub[1], Command::DrawFunc { ty: DrawKind::Dot, args } if matches!(args[0].1, ArgValue::RandomColor)));
        }
        _ => panic!("expected a sub block"),
    }
    match &c[4] {
        Command::OffsetText { key, offsets } => {
            assert_eq!(key, "name");
            assert_eq!(offsets.len(), 2);
            assert_eq!(offsets[0].1.rename.as_deref(), Some("Bar"));
            assert_eq!(offsets[0].1.offset, Some((Decimal { mantissa: 1, scale: 0 }, Decimal { mantissa: 2, scale: 0 })));
            assert_eq!(offsets[1].1.scale, Some(Decimal { mantissa: 5, scale: 1 }));
        }
        _ => panic!("expected an offset table"),
    }
}

#[test]
fn reports_error_position() {
    assert_eq!(parse_style("layer \"a\" { take x; }").err(), Some(ParseError { pos: 17 }));
    assert_eq!(parse_style("lair").err(), Some(ParseError { pos: 0 }));
    assert_eq!(parse_style("layer \"a\" { draw Dot(radius 2); }").err(), Some(ParseError { pos: 28 }));
    assert!(parse_style("").is_ok());
}

#[test]
fn blank_text_is_empty_style() {
    let st = parse_style("  \n\t ").unwrap();
    assert!(st.layers.is_empty());
    assert_eq!(st.meta.dpi, Decimal { mantissa: 96, scale: 0 });
}
