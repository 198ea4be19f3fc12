use ari::{
    decode, encode, CodingError, Decoder, Encoder, FrequencyTable, Model, RangeEncoder,
    RANGE_DEFAULT_THRESHOLD,
};

/// `A`, `B` and `C` with the ranges `[0, 1)`, `[1, 2)` and `[2, 4)`.
fn abc() -> FrequencyTable {
    FrequencyTable::new(&vec![1, 1, 2]).unwrap()
}

fn symbol(c: char) -> usize {
    (c as u8 - b'A') as usize
}

fn letter(v: usize) -> char {
    (b'A' + v as u8) as char
}

/// Every byte value with the same weight.
fn uniform() -> FrequencyTable {
    FrequencyTable::new(&vec![1; 256]).unwrap()
}

/// Two values, with a total as large as a border allows.
fn huge() -> FrequencyTable {
    FrequencyTable::new(&vec![1, u32::MAX - 1]).unwrap()
}

fn encode_all(values: &str, model: &FrequencyTable) -> Vec<u8> {
    let mut e = Encoder::new();
    for v in values.chars() {
        e.encode(symbol(v), model).unwrap();
    }
    e.finish()
}

fn decode_all(bytes: Vec<u8>, n: usize, model: &FrequencyTable) -> (String, Result<(), CodingError>) {
    let mut d = Decoder::new(bytes);
    let mut out = String::new();
    for _ in 0..n {
        out.push(letter(d.decode(model).unwrap()));
    }
    (out, d.finish())
}

#[test]
fn narrowing_in_half_emits_nothing() {
    let mut re = RangeEncoder::new(16384);
    assert_eq!((re.low(), re.high()), (0, 0xFFFF_FFFF));
    let mut out = Vec::new();
    re.process(2, 0, 1, &mut out);
    assert!(out.is_empty());
    assert_eq!(re.low(), 0);
    assert_eq!(re.high(), 0x7FFF_FFFF);
}

#[test]
fn narrowing_settles_leading_bytes() {
    let mut re = RangeEncoder::new(16384);
    let mut out = Vec::new();
    re.process(256, 0x61, 0x62, &mut out);
    re.process(256, 0x62, 0x63, &mut out);
    re.process(256, 0x63, 0x64, &mut out);
    assert_eq!(out, vec![97, 98]);
    assert_eq!(re.get_code_tail(), 1648139520);
    assert_eq!((re.low(), re.high()), (0, 0));
}

#[test]
fn reset_restores_the_full_interval() {
    let mut re = RangeEncoder::new(1000);
    let mut out = Vec::new();
    re.process(4, 1, 2, &mut out);
    re.reset();
    assert_eq!((re.low(), re.high()), (0, 0xFFFF_FFFF));
    assert_eq!(re.threshold, 1000);
}

#[test]
fn four_symbols_round_trip() {
    let model = abc();
    let bytes = encode_all("ABAC", &model);
    assert_eq!(bytes, vec![0x11, 0xFF, 0xFF, 0xFD]);
    let (decoded, end) = decode_all(bytes, 4, &model);
    assert_eq!(decoded, "ABAC");
    assert_eq!(end, Ok(()));
}

#[test]
fn decoder_reads_exactly_the_written_bytes() {
    let model = abc();
    let values = "ABABABBBCBAABABBBACBBCABABAAACBABCABCABA";
    let bytes = encode_all(values, &model);
    assert_eq!(bytes, vec![17, 21, 160, 135, 59, 127, 215, 237, 168, 235, 156, 240]);
    let (decoded, end) = decode_all(bytes.clone(), values.len(), &model);
    assert_eq!(decoded, values);
    assert_eq!(end, Ok(()));

    // One byte less and the decoder runs short.
    let mut short = bytes;
    short.pop();
    let mut d = Decoder::new(short);
    let mut failed = false;
    for _ in 0..values.len() {
        if d.decode(&model).is_err() {
            failed = true;
            break;
        }
    }
    if !failed {
        assert_eq!(d.finish(), Err(CodingError::UnexpectedEnd));
    }
}

#[test]
fn empty_session_writes_the_initial_low() {
    let e = Encoder::new();
    assert_eq!(e.finish(), vec![0, 0, 0, 0]);
}

#[test]
fn flush_hands_out_bytes_and_keeps_the_session() {
    let mut e = Encoder::new();
    for b in [0x61usize, 0x62, 0x63] {
        e.encode(b, &uniform()).unwrap();
    }
    let head = e.flush();
    assert_eq!(head, vec![97, 98]);
    assert!(e.flush().is_empty());
    let tail = e.finish();
    assert_eq!(tail, vec![98, 60, 157, 0]);

    let mut all = head;
    all.extend(tail);
    let mut d = Decoder::new(all);
    for b in [0x61usize, 0x62, 0x63] {
        assert_eq!(d.decode(&uniform()), Ok(b));
    }
    assert_eq!(d.finish(), Ok(()));
}

#[test]
fn bytes_round_trip() {
    let text = b"some text, and some more text";
    let mut e = Encoder::new();
    let model = uniform();
    for &b in text.iter() {
        e.encode(b as usize, &model).unwrap();
    }
    let bytes = e.finish();
    let mut d = Decoder::new(bytes);
    for &b in text.iter() {
        assert_eq!(d.decode(&model), Ok(b as usize));
    }
    assert_eq!(d.finish(), Ok(()));
}

#[test]
fn threshold_round_trip() {
    let model = abc();
    let values = "CCCCABBBACABCA";
    let mut e = Encoder::with_threshold(300);
    for v in values.chars() {
        e.encode(symbol(v), &model).unwrap();
    }
    let bytes = e.finish();
    let mut d = Decoder::with_threshold(bytes, 300);
    for v in values.chars() {
        assert_eq!(d.decode(&model).map(letter), Ok(v));
    }
    assert_eq!(d.finish(), Ok(()));
}

#[test]
fn total_beyond_the_interval_is_a_precision_fault() {
    let mut e = Encoder::new();
    // Narrow the interval to a 256th, then ask for a total wider than it.
    e.encode(0, &uniform()).unwrap();
    assert_eq!(e.encode(0, &huge()), Err(CodingError::PrecisionFault));
    // The failed call changed nothing.
    e.encode(7, &uniform()).unwrap();
    let bytes = e.finish();
    let mut d = Decoder::new(bytes);
    assert_eq!(d.decode(&uniform()), Ok(0));
    assert_eq!(d.decode(&huge()), Err(CodingError::PrecisionFault));
    assert_eq!(d.decode(&uniform()), Ok(7));
}

#[test]
fn can_process_matches_the_interval() {
    let re = RangeEncoder::new(RANGE_DEFAULT_THRESHOLD);
    assert!(re.can_process(4, 0, 1));
    assert!(!re.can_process(0, 0, 1));
    assert!(!re.can_process(4, 2, 2));
    assert!(!re.can_process(4, 1, 5));
}

#[test]
fn query_at_the_edges() {
    let re = RangeEncoder::new(RANGE_DEFAULT_THRESHOLD);
    // The width 0xFFFF_FFFF divides by 5 exactly.
    assert_eq!(re.query(5, re.low()), 0);
    assert_eq!(re.query(5, re.high() - 1), 4);
    assert!(re.resolves(5, re.high() - 1));
    assert!(!re.resolves(5, re.high()));
    // The remainder past the last whole unit falls on the last offset.
    assert_eq!(re.query(4, re.low()), 0);
    assert_eq!(re.query(4, 0xFFFF_FFFE), 3);
    assert_eq!(re.query(4, 0xFFFF_FFFB), 3);
    assert_eq!(re.query(4, 0xFFFF_FFFB - 0x3FFF_FFFF), 2);
    assert!(re.resolves(4, 0xFFFF_FFFE));
    assert!(!re.resolves(4, 0xFFFF_FFFF));
}

#[test]
fn decoding_the_highest_code_gives_the_last_value() {
    let model = abc();
    let mut re = RangeEncoder::new(RANGE_DEFAULT_THRESHOLD);
    assert_eq!(decode(0xFFFF_FFFE, &model, &mut re), (symbol('C'), 0));
    assert_eq!((re.low(), re.high()), (0x7FFF_FFFE, 0xFFFF_FFFC));
    let mut re = RangeEncoder::new(RANGE_DEFAULT_THRESHOLD);
    assert_eq!(decode(0, &model, &mut re), (symbol('A'), 0));
    assert_eq!((re.low(), re.high()), (0, 0x3FFF_FFFF));
}

#[test]
fn a_tie_at_the_boundary_lowers_the_upper_bound() {
    let mut re = RangeEncoder::new(0x80000);
    let mut out = Vec::new();
    // Narrows to [0x00FFE000, 0x01002000): equal halves around 0x01000000.
    re.process(0x7FFFF, 0x7FF, 0x801, &mut out);
    assert_eq!(out, vec![0x00, 0xFF]);
    assert_eq!((re.low(), re.high()), (0xE000_0000, 0xFFFF_0000));
}

#[test]
fn code_past_the_interval_is_out_of_range() {
    let model = abc();
    let mut d = Decoder::new(vec![0xFF, 0xFF, 0xFF, 0xFF]);
    assert_eq!(d.decode(&model), Err(CodingError::CodeOutOfRange));
    let mut d = Decoder::new(vec![0x00, 0x00, 0x00, 0x00]);
    assert_eq!(d.decode(&model), Ok(symbol('A')));
}

#[test]
fn short_input_is_an_unexpected_end() {
    let model = abc();
    let mut d = Decoder::new(vec![0x11, 0xFF]);
    assert_eq!(d.decode(&model), Err(CodingError::UnexpectedEnd));
    let d = Decoder::new(vec![1, 2, 3]);
    assert_eq!(d.finish(), Err(CodingError::UnexpectedEnd));
}

#[test]
fn drivers_agree_with_each_other() {
    let model = abc();
    let mut enc = RangeEncoder::new(RANGE_DEFAULT_THRESHOLD);
    let mut bytes = Vec::new();
    let values = "CABBAC";
    let mut counts = Vec::new();
    for v in values.chars() {
        let before = bytes.len();
        encode(symbol(v), &model, &mut enc, &mut bytes);
        counts.push(bytes.len() - before);
    }
    let tail = enc.get_code_tail();
    bytes.extend(tail.to_be_bytes());

    let mut dec = RangeEncoder::new(RANGE_DEFAULT_THRESHOLD);
    let mut pos = 4;
    let mut code = u32::from_be_bytes([bytes[0], bytes[1], bytes[2], bytes[3]]);
    for (i, v) in values.chars().enumerate() {
        let (got, shift) = decode(code, &model, &mut dec);
        assert_eq!(letter(got), v);
        assert_eq!(shift, counts[i]);
        for _ in 0..shift {
            code = (code << 8) + bytes[pos] as u32;
            pos += 1;
        }
    }
    assert_eq!(pos, bytes.len());
}

#[test]
fn frequency_table_ranges() {
    let t = FrequencyTable::new(&vec![3, 1, 4]).unwrap();
    assert_eq!(t.get_denominator(), 8);
    assert_eq!(t.get_range(0), (0, 3));
    assert_eq!(t.get_range(1), (3, 4));
    assert_eq!(t.get_range(2), (4, 8));
    assert_eq!(t.find_value(0), (0, 0, 3));
    assert_eq!(t.find_value(2), (0, 0, 3));
    assert_eq!(t.find_value(3), (1, 3, 4));
    assert_eq!(t.find_value(7), (2, 4, 8));
}

#[test]
fn frequency_table_rejects_bad_weights() {
    assert!(FrequencyTable::new(&vec![]).is_none());
    assert!(FrequencyTable::new(&vec![1, 0, 2]).is_none());
    assert!(FrequencyTable::new(&vec![u32::MAX, 1]).is_none());
    assert!(FrequencyTable::new(&vec![u32::MAX]).is_some());
}

#[test]
fn narrowing_keeps_the_share_widened_by_settled_bytes() {
    let mut re = RangeEncoder::new(RANGE_DEFAULT_THRESHOLD);
    let steps: [(u32, u32, u32); 5] = [(256, 0x61, 0x62), (256, 0x62, 0x63), (4, 2, 4), (3, 0, 1), (256, 0, 255)];
    for &(total, from, to) in steps.iter() {
        let unit = ((re.high() - re.low()) / total) as u128;
        let mut out = Vec::new();
        re.process(total, from, to, &mut out);
        let width = (re.high() - re.low()) as u128;
        assert!(width <= unit * (to - from) as u128 * 256u128.pow(out.len() as u32));
        assert!(width > RANGE_DEFAULT_THRESHOLD as u128);
    }
    let mut re = RangeEncoder::new(RANGE_DEFAULT_THRESHOLD);
    let mut out = Vec::new();
    re.process(256, 0x61, 0x62, &mut out);
    assert!(out.is_empty());
    assert_eq!((re.low(), re.high()), (0x60FF_FF9F, 0x61FF_FF9E));
}

#[test]
fn appending_values_keeps_earlier_bytes() {
    let model = abc();
    let values = "ABABABBBCBAABABBBACBBCABABAAACBABCABCABA";
    let mut e = Encoder::new();
    for v in values[..10].chars() {
        e.encode(symbol(v), &model).unwrap();
    }
    let head = e.flush();
    assert_eq!(head, vec![17, 21]);
    for v in values[10..].chars() {
        e.encode(symbol(v), &model).unwrap();
    }
    let mut all = head.clone();
    all.extend(e.finish());
    assert_eq!(all, encode_all(values, &model));
    assert!(all.starts_with(&head));
}

#[test]
fn clip_to_an_empty_interval_is_a_precision_fault() {
    // A model of total 16000 whose cells start at these bounds.
    let bounds: Vec<u32> = vec![
        0, 306, 307, 1075, 2075, 2937, 2938, 5238, 5239, 8606, 8656, 9199, 9200, 11943, 11945,
        15248, 15249, 16000,
    ];
    let weights: Vec<u32> = bounds.windows(2).map(|w| w[1] - w[0]).collect();
    let model = FrequencyTable::new(&weights).unwrap();
    assert_eq!(model.get_denominator(), 16000);
    let cell = |start: u32| bounds.iter().position(|&b| b == start).unwrap();
    let mut e = Encoder::new();
    for start in [1075, 15248, 9199, 306, 5238, 11943, 8606] {
        e.encode(cell(start), &model).unwrap();
    }
    // This one narrows to a single code straddling a byte boundary.
    assert_eq!(e.encode(cell(2937), &model), Err(CodingError::PrecisionFault));
    // The session goes on unchanged.
    e.encode(cell(0), &model).unwrap();
    let bytes = e.finish();
    let mut d = Decoder::new(bytes);
    for start in [1075, 15248, 9199, 306, 5238, 11943, 8606, 0] {
        assert_eq!(d.decode(&model), Ok(cell(start)));
    }
    assert_eq!(d.finish(), Ok(()));
}

#[test]
fn decoder_takes_input_as_it_is_owed() {
    let model = abc();
    let values = "ABABABBBCBAABABBBACBBCABABAAACBABCABCABA";
    let bytes = encode_all(values, &model);
    let mut d = Decoder::new(Vec::new());
    let mut next = 0;
    let mut out = String::new();
    for _ in 0..values.len() {
        for _ in 0..d.bytes_owed() {
            d.push_input(bytes[next]);
            next += 1;
        }
        assert_eq!(d.bytes_owed(), 0);
        out.push(letter(d.decode(&model).unwrap()));
    }
    assert_eq!(out, values);
    assert_eq!(d.bytes_owed(), bytes.len() - next);
    for &b in bytes[next..].iter() {
        d.push_input(b);
    }
    assert_eq!(d.bytes_owed(), 0);
    assert_eq!(d.finish(), Ok(()));
    assert_eq!(Decoder::new(Vec::new()).bytes_owed(), 4);
}
