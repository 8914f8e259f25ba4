use tsdb::format::{load, load_at, load_rec, store, store_at, store_rec, Rec, REC_WIDTH, VAL_WIDTH};

fn round_trip(n: u64) -> u64 {
    let mut buf: [u8; VAL_WIDTH] = [0; VAL_WIDTH];

    store(n, &mut buf);
    return load(&buf);
}

#[test]
fn encode_decode() {
    assert_eq!(0, round_trip(0));
    assert_eq!(1, round_trip(1));
    assert_eq!(255, round_trip(255));
    assert_eq!(256, round_trip(256));
    assert_eq!(1234567890, round_trip(1234567890));
    assert_eq!(u64::max_value(), round_trip(u64::max_value()));
}

fn round_trip_rec(rec: Rec) {
    let mut buf: [u8; REC_WIDTH] = [0; REC_WIDTH];
    store_rec(&rec, &mut buf);
    let rec2 = load_rec(&buf);
    assert_eq!(rec, rec2);
}

#[test]
fn encode_decode_rec() {
    round_trip_rec(Rec {
        timestamp: 1234567890,
        value: 257,
    });
}

#[test]
fn encode_decode_at_the_edges() {
    for n in [0, 1, 255, 256, 65535, 1u64 << 32, u64::MAX] {
        assert_eq!(n, round_trip(n));
    }
}

#[test]
fn store_is_little_endian() {
    let mut buf = [0xffu8; 8];
    store(0x0102030405060708, &mut buf);
    assert_eq!([8, 7, 6, 5, 4, 3, 2, 1], buf);

    store(256, &mut buf);
    assert_eq!([0, 1, 0, 0, 0, 0, 0, 0], buf);

    store(u64::MAX, &mut buf);
    assert_eq!([0xff; 8], buf);
}

#[test]
fn load_is_little_endian() {
    assert_eq!(0x0102030405060708, load(&[8, 7, 6, 5, 4, 3, 2, 1]));
    assert_eq!(1 << 56, load(&[0, 0, 0, 0, 0, 0, 0, 1]));
    assert_eq!(0, load(&[0; 8]));
}

#[test]
fn record_layout_is_timestamp_then_value() {
    let mut buf = [0u8; 16];
    store_rec(&Rec { timestamp: 1, value: 0x0200 }, &mut buf);
    assert_eq!([1, 0, 0, 0, 0, 0, 0, 0, 0, 2, 0, 0, 0, 0, 0, 0], buf);

    let rec = load_rec(&[0, 1, 0, 0, 0, 0, 0, 0, 7, 0, 0, 0, 0, 0, 0, 0]);
    assert_eq!(Rec { timestamp: 256, value: 7 }, rec);
}

#[test]
fn store_at_leaves_the_rest_alone() {
    let mut buf = [0xaau8; 12];
    store_at(0x11223344, &mut buf, 2);
    assert_eq!([0xaa, 0xaa, 0x44, 0x33, 0x22, 0x11, 0, 0, 0, 0, 0xaa, 0xaa], buf);
    assert_eq!(0x11223344, load_at(&buf, 2));
}
