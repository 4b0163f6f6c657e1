use gtaveh::handling::{parse_fields, value_text, vec3_text, handling_block};

const META: &str = r#"<CHandlingDataMgr>
  <HandlingData>
    <Item type="CHandlingData">
      <handlingName>ZION2</handlingName>
      <fMass value="1200.000000" />
      <fInitialDragCoeff value="7.000000" />
    </Item>
    <Item type="CHandlingData">
      <handlingName>ZION</handlingName>
      <fMass value="1400.000000" />
      <fInitialDragCoeff value="5.500000" />
      <vecCentreOfMassOffset x="0.000000" y="-0.100000" z="0.050000" />
      <vecInertiaMultiplier x="1.000000" y="1.200000" z="1.500000" />
      <nInitialDriveGears value="6" />
      <fSeatOffsetDistX value="0.010000" />
    </Item>
    <Item type="CHandlingData">
      <handlingName>ADDER</handlingName>
      <fMass value="1800.000000" />
    </Item>
  </HandlingData>
</CHandlingDataMgr>"#;

fn s(o: &Option<String>) -> Option<&str> {
    o.as_deref()
}

#[test]
fn exact_name_is_not_a_prefix_match() {
    let z = parse_fields(META, "ZION").unwrap();
    assert_eq!(s(&z.mass), Some("1400.000000"));
    let z2 = parse_fields(META, "ZION2").unwrap();
    assert_eq!(s(&z2.mass), Some("1200.000000"));
    assert_eq!(s(&z2.drag_coeff), Some("7.000000"));
}

#[test]
fn block_ends_at_next_vehicle() {
    let z2 = parse_fields(META, "ZION2").unwrap();
    // ZION's fields must not leak into ZION2's block
    assert_eq!(s(&z2.drive_gears), None);
    assert!(z2.com_offset.is_none());
    let a = parse_fields(META, "ADDER").unwrap();
    assert_eq!(s(&a.mass), Some("1800.000000"));
    assert_eq!(s(&a.drag_coeff), None);
}

#[test]
fn scalar_and_vector_fields() {
    let z = parse_fields(META, "ZION").unwrap();
    assert_eq!(s(&z.drag_coeff), Some("5.500000"));
    assert_eq!(s(&z.drive_gears), Some("6"));
    assert_eq!(s(&z.seat_offset_x), Some("0.010000"));
    assert_eq!(s(&z.seat_offset_y), None);
    let c = z.com_offset.unwrap();
    assert_eq!((s(&c.x), s(&c.y), s(&c.z)), (Some("0.000000"), Some("-0.100000"), Some("0.050000")));
    let i = z.inertia_mult.unwrap();
    assert_eq!(s(&i.z), Some("1.500000"));
}

#[test]
fn unknown_vehicle() {
    assert!(parse_fields(META, "BANSHEE").is_none());
    assert!(parse_fields("", "ZION").is_none());
    // the name must sit inside its own tag
    assert!(parse_fields("<handlingName>ZIO</handlingName>", "ZION").is_none());
}

#[test]
fn block_text() {
    let xml: Vec<char> = "<handlingName>A</handlingName><x/><handlingName>B</handlingName>".chars().collect();
    let name: Vec<char> = "A".chars().collect();
    let b: String = handling_block(&xml, &name).unwrap().into_iter().collect();
    assert_eq!(b, "<handlingName>A</handlingName><x/>");
    let last: Vec<char> = "B".chars().collect();
    let b: String = handling_block(&xml, &last).unwrap().into_iter().collect();
    assert_eq!(b, "<handlingName>B</handlingName>");
}

#[test]
fn value_and_vector_text() {
    let block: Vec<char> = r#"<fMass value="12" /><v x="1" z="3" />"#.chars().collect();
    let tag: Vec<char> = "fMass".chars().collect();
    let v: String = value_text(&block, &tag).unwrap().into_iter().collect();
    assert_eq!(v, "12");
    let missing: Vec<char> = "fDrag".chars().collect();
    assert!(value_text(&block, &missing).is_none());
    let vt: Vec<char> = "v".chars().collect();
    let v3 = vec3_text(&block, &vt).unwrap();
    assert_eq!((s(&v3.x), s(&v3.y), s(&v3.z)), (Some("1"), None, Some("3")));
    // an unterminated value has no text
    let open: Vec<char> = r#"<fMass value="12"#.chars().collect();
    assert!(value_text(&open, &tag).is_none());
}
