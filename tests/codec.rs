use iqdb_rs::codec::normalize_coefs;
use iqdb_rs::Signature;

fn example() -> Signature {
    Signature {
        avgl: (
            0.76577718136597f64.to_bits(),
            (-0.00011652168713282838f64).to_bits(),
            0.004947875142783265f64.to_bits(),
        ),
        sig: vec![
            -1933,-1920,-1152,-1029,-1026,-782,-773,-768,-522,-387,-384,-258,-140,-133,-131,-128,-28,-26,-14,-13,-7,-3,1,2,5,10,12,130,138,141,256,259,386,512,770,1024,1027,1280,1925,2560,
            -4864,-2562,-1557,-1550,-1543,-1541,-1536,-1027,-1024,-919,-896,-645,-640,-512,-261,-258,-257,-133,128,131,134,141,256,259,384,646,901,908,1026,1029,1286,1290,1538,2560,2563,2694,4869,4876,5120,5123,
            -5120,-2694,-2563,-2560,-1290,-1286,-1027,-1024,-921,-918,-908,-901,-898,-646,-642,-407,-259,-256,-25,-12,-5,-2,3,13,128,133,140,258,389,396,406,640,643,896,899,919,922,2562,2566,2699,
        ],
    }
}

const EXAMPLE_HASH: &str = "iqdb_3fe8813f25bfad46bf1e8ba3578fff323f7444391ec46274f873f880fb80fbfbfbfefcf2fcfbfd00fdf6fe7dfe80fefeff74ff7bff7dff80ffe4ffe6fff2fff3fff9fffd000100020005000a000c0082008a008d0100010301820200030204000403050007850a00ed00f5fef9ebf9f2f9f9f9fbfa00fbfdfc00fc69fc80fd7bfd80fe00fefbfefefeffff7b008000830086008d01000103018002860385038c040204050506050a06020a000a030a861305130c14001403ec00f57af5fdf600faf6fafafbfdfc00fc67fc6afc74fc7bfc7efd7afd7efe69fefdff00ffe7fff4fffbfffe0003000d00800085008c01020185018c019602800283038003830397039a0a020a060a8b";

#[test]
fn hash() {
    let sig = example();
    let hash = sig.to_string();
    assert_eq!(hash, EXAMPLE_HASH);
    let parsed: Signature = Signature::parse(&hash).unwrap();
    assert_eq!(sig, parsed);
}

#[test]
fn hash_bytes_are_the_text() {
    assert_eq!(example().to_hash_bytes(), EXAMPLE_HASH.as_bytes().to_vec());
}

#[test]
fn parse_accepts_uppercase_digits() {
    let upper = format!("iqdb_{}", EXAMPLE_HASH[5..].to_uppercase());
    assert_eq!(Signature::parse(&upper).unwrap(), example());
}

#[test]
fn parse_sorts_each_color() {
    let mut sig = example();
    sig.sig.swap(0, 39);
    sig.sig.swap(40, 79);
    sig.sig.swap(80, 100);
    let text = sig.to_string();
    assert_ne!(text, EXAMPLE_HASH);
    assert_eq!(Signature::parse(&text).unwrap(), example());
}

#[test]
fn parse_rejects_bad_text() {
    assert!(Signature::parse("").is_err());
    assert!(Signature::parse(&EXAMPLE_HASH[..532]).is_err());
    assert!(Signature::parse(&format!("{}0", EXAMPLE_HASH)).is_err());
    let wrong_prefix = format!("iqdc_{}", &EXAMPLE_HASH[5..]);
    assert!(Signature::parse(&wrong_prefix).is_err());
    let bad_digit = format!("{}g{}", &EXAMPLE_HASH[..100], &EXAMPLE_HASH[101..]);
    assert!(Signature::parse(&bad_digit).is_err());
}

#[test]
fn parse_reads_extreme_coefficients() {
    let mut text = String::from("iqdb_");
    text.push_str(&"0".repeat(48));
    text.push_str("8000");
    text.push_str("7fff");
    text.push_str(&"0001".repeat(118));
    let sig = Signature::parse(&text).unwrap();
    assert_eq!(sig.avgl, (0, 0, 0));
    assert_eq!(sig.sig[0], -32768);
    assert_eq!(sig.sig[39], 32767);
    assert_eq!(sig.sig[1], 1);
}

#[test]
fn normalize_sorts_blocks_only() {
    let mut c: Vec<i16> = (0..120).map(|i| 120 - i as i16).collect();
    c[0] = -5;
    let n = normalize_coefs(&c);
    for block in n.chunks(40) {
        assert!(block.windows(2).all(|w| w[0] <= w[1]));
    }
    assert_eq!(n[0], -5);
    assert_eq!(n[39], 119);
    assert_eq!(n[40], 41);
    assert_eq!(n[119], 1 + 39);
}
