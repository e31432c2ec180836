use qoar::io::{SinkStream, WriteError, WriteResult};
use qoar::QoaSlice;

const PACKED: [u8; 8] = [
    0b10010010, 0b10011100, 0b10111011, 0b11101011, 0b00011010, 0b00101001, 0b11001011, 0b10111110,
];

const RESID: [u8; 20] = [1, 2, 3, 4, 5, 6, 7, 6, 5, 4, 3, 2, 1, 2, 3, 4, 5, 6, 7, 6];

#[test]
fn unpack_slice() {
    // q=9, r00=1, r01=2, ..., r19=6
    const WORD: u64 =
        0b1001_001_010_011_100_101_110_111_001_010_011_100_101_110_111_001_010_011_100_101_110;
    let mut unpacked = [0u8; 20];
    let mut i = 0;
    let mut v = 1;
    while i < 20 {
        unpacked[i] = v;
        i += 1;
        v += 1;
        if v == 8 {
            v = 1;
        }
    }

    let mut slice = QoaSlice::default();
    slice.unpack(WORD);

    assert_eq!(slice, QoaSlice { quant: 9, resid: unpacked });
}

#[test]
fn slice_pack() {
    let slice = QoaSlice { quant: 9, resid: RESID };
    assert_eq!(slice.pack().to_be_bytes(), PACKED)
}

#[test]
fn slice_unpack() {
    let exp_slice = QoaSlice { quant: 9, resid: RESID };
    let mut act_slice = QoaSlice::default();
    act_slice.unpack(u64::from_be_bytes(PACKED));

    assert_eq!(act_slice, exp_slice)
}

struct Failing(usize);

impl SinkStream for Failing {
    fn write_long(&mut self, _value: u64) -> WriteResult {
        if self.0 == 0 {
            Err(WriteError::Other(String::from("full")))
        } else {
            self.0 -= 1;
            Ok(())
        }
    }
}

#[test]
fn a_sink_of_the_caller_can_refuse_words() {
    let mut sink = Failing(1);
    assert!(sink.write_long(1).is_ok());
    assert!(sink.write_long(2).is_err());
    assert!(sink.flush().is_ok());
}
