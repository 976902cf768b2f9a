use pallette::color::Rgb;
use pallette::color_names::{parse_channel, ColorNames, NamesError};

const TABLE: &str = "key,name,hex,r,g,b\n\
air_force_blue,\"Air Force Blue, Raf\",#5d8aa8,93,138,168\n\
alice_blue,Alice Blue,#f0f8ff,240,248,255\n\
again,Second Name,#5d8aa8,93,138,168\n\
black,Black,#000000,0,+0,000\n";

#[test]
fn load_reads_the_names_behind_the_header() {
    let names = ColorNames::load(TABLE.as_bytes()).unwrap();
    assert_eq!(names.len(), 3);
    assert_eq!(
        names.get_color_name(&Rgb([93, 138, 168])),
        Some(String::from("Air Force Blue, Raf"))
    );
    assert_eq!(names.get_color_name(&Rgb([240, 248, 255])), Some(String::from("Alice Blue")));
    assert_eq!(names.get_color_name(&Rgb([0, 0, 0])), Some(String::from("Black")));
}

#[test]
fn an_unknown_color_has_the_empty_name() {
    let names = ColorNames::load(TABLE.as_bytes()).unwrap();
    assert_eq!(names.get_color_name(&Rgb([1, 2, 3])), Some(String::new()));
    let none = ColorNames::new();
    assert_eq!(none.len(), 0);
    assert_eq!(none.get_color_name(&Rgb([0, 0, 0])), Some(String::new()));
    let only_header = ColorNames::load(b"key,name,hex,r,g,b\n").unwrap();
    assert_eq!(only_header.len(), 0);
}

#[test]
fn load_tells_what_is_wrong() {
    let short = "a,b,c,d,e\nx,X,#000000,0,0\n";
    assert_eq!(ColorNames::load(short.as_bytes()).err(), Some(NamesError::MissingField { row: 0 }));
    let bad = "k,n,h,r,g,b\nx,X,#000000,0,0,0\ny,Y,#000000,0,256,0\nz,Z,#000000,0,0,x\n";
    assert_eq!(ColorNames::load(bad.as_bytes()).err(), Some(NamesError::BadChannel { row: 1 }));
    let uneven = "k,n,h,r,g,b\nx,X,#000000,0,0,0\ny,Y\n";
    assert_eq!(ColorNames::load(uneven.as_bytes()).err(), Some(NamesError::Malformed));
    let not_utf8 = [b'k', b',', b'n', b'\n', 0xff, b',', b'x', b'\n'];
    assert_eq!(ColorNames::load(&not_utf8).err(), Some(NamesError::Malformed));
}

#[test]
fn from_records_takes_rows() {
    let row = |fields: &[&str]| fields.iter().map(|f| f.to_string()).collect::<Vec<String>>();
    let rows = vec![
        row(&["k", "One", "h", "1", "2", "3"]),
        row(&["k", "Two", "h", "4", "5", "6", "more"]),
        row(&["k", "Other", "h", "1", "2", "3"]),
    ];
    let names = ColorNames::from_records(&rows).unwrap();
    assert_eq!(names.len(), 2);
    assert_eq!(names.get_color_name(&Rgb([1, 2, 3])), Some(String::from("One")));
    assert_eq!(names.get_color_name(&Rgb([4, 5, 6])), Some(String::from("Two")));
    let rows = vec![row(&["k", "One", "h", "1", "2", "3"]), row(&["k", "Two", "h", "4", "", "6"])];
    assert_eq!(ColorNames::from_records(&rows).err(), Some(NamesError::BadChannel { row: 1 }));
    assert_eq!(ColorNames::from_records(&vec![]).unwrap().len(), 0);
}

#[test]
fn register_keeps_the_first_name() {
    let mut names = ColorNames::new();
    names.register(Rgb([1, 1, 1]), String::from("first"));
    names.register(Rgb([1, 1, 1]), String::from("second"));
    names.register(Rgb([1, 1, 2]), String::from("third"));
    assert_eq!(names.len(), 2);
    assert_eq!(names.get_color_name(&Rgb([1, 1, 1])), Some(String::from("first")));
}

#[test]
fn parse_channel_reads_numbers_up_to_255() {
    assert_eq!(parse_channel("0"), Some(0));
    assert_eq!(parse_channel("7"), Some(7));
    assert_eq!(parse_channel("255"), Some(255));
    assert_eq!(parse_channel("+42"), Some(42));
    assert_eq!(parse_channel("007"), Some(7));
    assert_eq!(parse_channel("0000000000000000000000255"), Some(255));
    assert_eq!(parse_channel("256"), None);
    assert_eq!(parse_channel("99999999999999999999"), None);
    assert_eq!(parse_channel(""), None);
    assert_eq!(parse_channel("+"), None);
    assert_eq!(parse_channel("-1"), None);
    assert_eq!(parse_channel("++1"), None);
    assert_eq!(parse_channel("1+"), None);
    assert_eq!(parse_channel(" 1"), None);
    assert_eq!(parse_channel("1 "), None);
    assert_eq!(parse_channel("12a"), None);
    assert_eq!(parse_channel("1.0"), None);
    assert_eq!(parse_channel("２"), None);
}

#[test]
fn parse_channel_agrees_with_the_standard_parser() {
    let texts = ["0", "255", "256", "+9", "-9", "", "+", "0x10", "010", "1e2", "25 5", "३"];
    for text in texts {
        assert_eq!(parse_channel(text), text.parse::<u8>().ok());
    }
    for v in 0..=300u32 {
        let text = v.to_string();
        assert_eq!(parse_channel(&text), text.parse::<u8>().ok());
    }
}
