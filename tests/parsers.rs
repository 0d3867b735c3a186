use wayne::leaves::{
    array, fd, fixed, int32, raw_id, string, uint, uint_enum, EnumLookup, LeU32,
};
use wayne::parse::{MapExt, OptionExt};
use wayne::parse::{
    Bytes, Compose, Consume, IterBuf, MapParser, Pad, ParseError, Parser, Pass, PassOn, Then,
    Unwrap,
};

fn bufs(bytes: &[u8], fds: &[i32]) -> (IterBuf<u8>, IterBuf<i32>) {
    (IterBuf::new(bytes.to_vec()), IterBuf::new(fds.to_vec()))
}

#[test]
fn uint_reads_little_endian() {
    let (mut b, mut f) = bufs(&[0x78, 0x56, 0x34, 0x12, 9], &[]);
    match uint().parse(&mut b, &mut f) {
        Ok(v) => assert_eq!(v, 0x1234_5678),
        _ => panic!("uint did not finish"),
    }
    assert_eq!(b.len(), 1);
}

#[test]
fn int_reads_negative_values() {
    let (mut b, mut f) = bufs(&[0xfe, 0xff, 0xff, 0xff], &[]);
    match int32().parse(&mut b, &mut f) {
        Ok(v) => assert_eq!(v, -2),
        _ => panic!("int did not finish"),
    }
}

#[test]
fn fixed_keeps_the_raw_bits() {
    let (mut b, mut f) = bufs(&[0x80, 0x01, 0x00, 0x00], &[]);
    match fixed().parse(&mut b, &mut f) {
        Ok(v) => assert_eq!(v, 0x180),
        _ => panic!("fixed did not finish"),
    }
}

#[test]
fn raw_id_reads_a_word() {
    let (mut b, mut f) = bufs(&[7, 0, 0, 0], &[]);
    match raw_id().parse(&mut b, &mut f) {
        Ok(v) => assert_eq!(v.value(), 7),
        _ => panic!("raw_id did not finish"),
    }
}

#[test]
fn uint_resumes_after_short_input() {
    let (mut b, mut f) = bufs(&[1, 2], &[]);
    let p = match uint().parse(&mut b, &mut f) {
        Err(ParseError::Incomplete(p)) => p,
        _ => panic!("uint should be incomplete"),
    };
    assert_eq!(b.len(), 0);
    let (mut b, mut f) = bufs(&[3, 4], &[]);
    match p.parse(&mut b, &mut f) {
        Ok(v) => assert_eq!(v, 0x0403_0201),
        _ => panic!("uint did not finish"),
    }
}

#[test]
fn array_skips_padding() {
    let bytes = [5, 0, 0, 0, 1, 2, 3, 4, 5, 0, 0, 0, 0xaa];
    let (mut b, mut f) = bufs(&bytes, &[]);
    match array().parse(&mut b, &mut f) {
        Ok(v) => assert_eq!(v, vec![1, 2, 3, 4, 5]),
        _ => panic!("array did not finish"),
    }
    assert_eq!(b.len(), 1);
}

#[test]
fn array_resumes_byte_by_byte() {
    let bytes = [3, 0, 0, 0, 9, 8, 7, 0];
    let mut p = array();
    let mut f = IterBuf::new(Vec::new());
    for (i, byte) in bytes.iter().enumerate() {
        let mut b = IterBuf::new(vec![*byte]);
        match p.parse(&mut b, &mut f) {
            Ok(v) => {
                assert_eq!(i, bytes.len() - 1);
                assert_eq!(v, vec![9, 8, 7]);
                return;
            }
            Err(ParseError::Incomplete(next)) => p = next,
            Err(ParseError::Failed) => panic!("array failed"),
        }
    }
    panic!("array never finished");
}

#[test]
fn string_keeps_trailing_nul() {
    let bytes = [3, 0, 0, 0, b'h', b'i', 0, 0];
    let (mut b, mut f) = bufs(&bytes, &[]);
    match string().parse(&mut b, &mut f) {
        Ok(s) => assert_eq!(s.as_bytes(), b"hi\0"),
        _ => panic!("string did not finish"),
    }
    assert_eq!(b.len(), 0);
}

#[test]
fn fd_takes_from_the_queue() {
    let (mut b, mut f) = bufs(&[1], &[10, 11]);
    match fd().parse(&mut b, &mut f) {
        Ok(v) => assert_eq!(v, 10),
        _ => panic!("fd did not finish"),
    }
    assert_eq!(f.len(), 1);
    assert_eq!(b.len(), 1);
    let (mut b, mut f) = bufs(&[], &[]);
    assert!(matches!(fd().parse(&mut b, &mut f), Err(ParseError::Incomplete(_))));
}

#[test]
fn enum_decoding() {
    let (mut b, mut f) = bufs(&[0x00, 0x00, 0x00, 0x00], &[]);
    match uint_enum(vec![0, 1]).parse(&mut b, &mut f) {
        Ok(i) => assert_eq!(i, 0),
        _ => panic!("enum did not decode"),
    }
    let (mut b, mut f) = bufs(&[0x02, 0x00, 0x00, 0x00], &[]);
    assert!(matches!(
        uint_enum(vec![0, 1]).parse(&mut b, &mut f),
        Err(ParseError::Failed)
    ));
}

#[test]
fn consume_discards_bytes_and_fds() {
    let (mut b, mut f) = bufs(&[1, 2, 3], &[4, 5]);
    match Consume::new(2, 1).parse(&mut b, &mut f) {
        Ok(_) => {}
        _ => panic!("consume did not finish"),
    }
    assert_eq!(b.len(), 1);
    assert_eq!(f.len(), 1);
}

#[test]
fn bytes_takes_exactly_n() {
    let (mut b, mut f) = bufs(&[1, 2, 3, 4], &[]);
    match Bytes::new(3).parse(&mut b, &mut f) {
        Ok(v) => assert_eq!(v, vec![1, 2, 3]),
        _ => panic!("bytes did not finish"),
    }
    assert_eq!(b.len(), 1);
}

#[test]
fn then_pass_is_the_parser_itself() {
    let (mut b, mut f) = bufs(&[9, 0, 0, 0], &[]);
    let p = Then::new(uint(), PassOn::new());
    match p.parse(&mut b, &mut f) {
        Ok(v) => assert_eq!(v, 9),
        _ => panic!("then did not finish"),
    }
}

#[test]
fn map_map_is_map_of_composition() {
    for word in [[1u8, 0, 0, 0], [7, 0, 0, 0]] {
        let (mut b, mut f) = bufs(&word, &[]);
        let twice = MapParser::new(
            MapParser::new(Bytes::new(4), LeU32::new()),
            EnumLookup::new(vec![3, 7, 1]),
        );
        let twice = match twice.parse(&mut b, &mut f) {
            Ok(v) => v,
            _ => panic!("map did not finish"),
        };
        let (mut b, mut f) = bufs(&word, &[]);
        let once = MapParser::new(
            Bytes::new(4),
            Compose { f: LeU32::new(), g: EnumLookup::new(vec![3, 7, 1]) },
        );
        let once = match once.parse(&mut b, &mut f) {
            Ok(v) => v,
            _ => panic!("map did not finish"),
        };
        assert_eq!(once, twice);
    }
    let (mut b, mut f) = bufs(&[7, 0, 0, 0], &[]);
    let once = MapParser::new(
        Bytes::new(4),
        Compose { f: LeU32::new(), g: EnumLookup::new(vec![3, 7, 1]) },
    );
    assert!(matches!(once.parse(&mut b, &mut f), Ok(Some(1))));
}

#[test]
fn unwrap_of_pass() {
    let (mut b, mut f) = bufs(&[], &[]);
    match Unwrap::new(Pass::new(Some(3u32))).parse(&mut b, &mut f) {
        Ok(v) => assert_eq!(v, 3),
        _ => panic!("unwrap did not finish"),
    }
    assert!(matches!(
        Unwrap::new(Pass::new(None::<u32>)).parse(&mut b, &mut f),
        Err(ParseError::Failed)
    ));
}

#[test]
fn parse_error_map_keeps_failure() {
    let e: ParseError<u32> = ParseError::Incomplete(3);
    assert!(matches!(e.map(|x| x + 1), ParseError::Incomplete(4)));
    let e: ParseError<u32> = ParseError::Failed;
    assert!(matches!(e.map(|x| x + 1), ParseError::Failed));
}

#[test]
fn pad_discards_to_alignment() {
    let (mut b, mut f) = bufs(&[1, 2, 3, 4, 5, 0, 0, 0, 9], &[]);
    match Pad::new(Bytes::new(5), 4).parse(&mut b, &mut f) {
        Ok(v) => assert_eq!(v, vec![1, 2, 3, 4, 5]),
        _ => panic!("pad did not finish"),
    }
    assert_eq!(b.len(), 1);
    let (mut b, mut f) = bufs(&[1, 2, 3, 4, 9], &[]);
    match Pad::new(Bytes::new(4), 4).parse(&mut b, &mut f) {
        Ok(v) => assert_eq!(v, vec![1, 2, 3, 4]),
        _ => panic!("pad did not finish"),
    }
    assert_eq!(b.len(), 1);
}

#[test]
fn pad_resumes_byte_by_byte() {
    let bytes = [7u8, 0, 0, 0];
    let mut p = Pad::new(Bytes::new(1), 4);
    let mut f = IterBuf::new(Vec::new());
    for (i, byte) in bytes.iter().enumerate() {
        let mut b = IterBuf::new(vec![*byte]);
        match p.parse(&mut b, &mut f) {
            Ok(v) => {
                assert_eq!(i, 3);
                assert_eq!(v, vec![7]);
                return;
            }
            Err(ParseError::Incomplete(next)) => p = next,
            Err(ParseError::Failed) => panic!("pad failed"),
        }
    }
    panic!("pad never finished");
}

#[test]
fn pad_by_zero_discards_nothing() {
    let (mut b, mut f) = bufs(&[1, 2, 3], &[]);
    match Pad::new(Bytes::new(1), 0).parse(&mut b, &mut f) {
        Ok(v) => assert_eq!(v, vec![1]),
        _ => panic!("pad did not finish"),
    }
    assert_eq!(b.len(), 2);
}

#[test]
fn method_style_combinators() {
    let (mut b, mut f) = bufs(&[1, 0, 0, 0], &[]);
    let p = uint().map(EnumLookup::new(vec![5, 1])).some();
    match p.parse(&mut b, &mut f) {
        Ok(i) => assert_eq!(i, 1),
        _ => panic!("enum did not decode"),
    }
    let (mut b, mut f) = bufs(&[6, 0, 0, 0], &[]);
    match Bytes::new(1).pad(4).parse(&mut b, &mut f) {
        Ok(v) => assert_eq!(v, vec![6]),
        _ => panic!("pad did not finish"),
    }
    assert_eq!(b.len(), 0);
    let (mut b, mut f) = bufs(&[2, 0, 0, 0], &[]);
    match uint().and_then(PassOn::new()).parse(&mut b, &mut f) {
        Ok(v) => assert_eq!(v, 2),
        _ => panic!("and_then did not finish"),
    }
}

#[test]
fn ids_from_values() {
    use_ids();
}

fn use_ids() {
    let n: wayne::types::NewId<()> = wayne::types::NewId::from(7u32);
    assert_eq!(n.value(), 7);
    let o: wayne::types::ObjectId<()> = wayne::types::ObjectId::from(9u32);
    assert_eq!(o.value(), 9);
    let r = wayne::types::RawId::from_value(3);
    assert_eq!(r.to_obj::<()>().raw(), r);
    assert_eq!(r.to_new::<()>().raw(), r);
    let a = wayne::types::RawId::from_value(2);
    assert!(a < r);
    assert!(a.to_obj::<()>() < r.to_obj::<()>());
    assert!(r.to_obj::<()>() == wayne::types::ObjId::<()>::from_raw(r));
}
