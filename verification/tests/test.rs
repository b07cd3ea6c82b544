use watto::OffsetSet;
use watto::ReadOffsetSetError;
use watto::ReadStringError;
use watto::StringTable;
use watto::Writer;

#[test]
fn test_ref() {
    let num = u64::from_le_bytes([0x0, 0x1, 0x2, 0x3, 0x4, 0x5, 0x6, 0x7]);
    let bytes = watto::as_bytes(&num);
    assert_eq!(bytes, vec![0x0, 0x1, 0x2, 0x3, 0x4, 0x5, 0x6, 0x7]);
    assert_eq!(watto::ref_from_bytes::<u64>(&bytes, 0).unwrap(), num);

    // buffer too big
    let n = watto::ref_from_bytes::<u32>(&bytes, 0);
    assert_eq!(n, None);
    // buffer not aligned
    let n = watto::ref_from_bytes::<u32>(&bytes[1..], 1);
    assert_eq!(n, None);
}

#[test]
fn test_slice() {
    let num = u64::from_le_bytes([0x0, 0x1, 0x2, 0x3, 0x4, 0x5, 0x6, 0x7]);
    let bytes = watto::as_bytes(&num);
    let nums = watto::slice_from_bytes::<u32>(&bytes, 0).unwrap();

    assert_eq!(
        watto::slice_as_bytes(&nums),
        vec![0x0, 0x1, 0x2, 0x3, 0x4, 0x5, 0x6, 0x7]
    );
    assert_eq!(nums.len(), 2);
    assert_eq!(nums[0], u32::from_le_bytes([0x0, 0x1, 0x2, 0x3]));
    assert_eq!(nums[1], u32::from_le_bytes([0x4, 0x5, 0x6, 0x7]));

    // buffer not a multiple of the element size
    let n = watto::slice_from_bytes::<u32>(&bytes[..7], 0);
    assert_eq!(n, None);
    // buffer not aligned
    let n = watto::slice_from_bytes::<u32>(&bytes[1..], 1);
    assert_eq!(n, None);
}

#[test]
fn test_ref_from_prefix() {
    let nums = [
        u64::from_le_bytes([0x0, 0x1, 0x2, 0x3, 0x4, 0x5, 0x6, 0x7]),
        u64::from_le_bytes([0x8, 0x9, 0xa, 0xb, 0xc, 0xd, 0xe, 0xf]),
    ];
    let bytes = watto::slice_as_bytes(&nums);
    let (num, rest) = watto::ref_from_prefix::<u64>(&bytes, 0).unwrap();

    assert_eq!(
        watto::as_bytes(&num),
        vec![0x0, 0x1, 0x2, 0x3, 0x4, 0x5, 0x6, 0x7]
    );

    assert_eq!(num, nums[0]);

    assert_eq!(rest, &[0x8, 0x9, 0xa, 0xb, 0xc, 0xd, 0xe, 0xf]);

    // buffer not aligned
    let n = watto::ref_from_prefix::<u64>(&bytes[1..], 1);
    assert_eq!(n, None);
}

#[test]
fn test_slice_from_prefix() {
    let nums = [
        u64::from_le_bytes([0x0, 0x1, 0x2, 0x3, 0x4, 0x5, 0x6, 0x7]),
        u64::from_le_bytes([0x8, 0x9, 0xa, 0xb, 0xc, 0xd, 0xe, 0xf]),
    ];
    let bytes = watto::slice_as_bytes(&nums);
    let (nums, rest) = watto::slice_from_prefix::<u32>(&bytes, 0, 2).unwrap();

    assert_eq!(
        watto::slice_as_bytes(&nums),
        vec![0x0, 0x1, 0x2, 0x3, 0x4, 0x5, 0x6, 0x7]
    );

    assert_eq!(nums.len(), 2);
    assert_eq!(nums[0], u32::from_le_bytes([0x0, 0x1, 0x2, 0x3]));
    assert_eq!(nums[1], u32::from_le_bytes([0x4, 0x5, 0x6, 0x7]));

    assert_eq!(rest, &[0x8, 0x9, 0xa, 0xb, 0xc, 0xd, 0xe, 0xf]);

    // buffer not aligned
    let n = watto::slice_from_prefix::<u32>(&bytes[1..], 1, 2);
    assert_eq!(n, None);
}

#[test]
fn test_align_to() {
    let num = u64::from_le_bytes([0x0, 0x1, 0x2, 0x3, 0x4, 0x5, 0x6, 0x7]);
    let bytes = watto::as_bytes(&num);
    let (num, bytes) = watto::ref_from_prefix::<u16>(&bytes, 0).unwrap();

    assert_eq!(num, u16::from_le_bytes([0x0, 0x1]));

    // the suffix starts two bytes past the aligned origin
    let (_, bytes) = watto::align_to(bytes, 2, std::mem::size_of::<u32>()).unwrap();

    let (nums, bytes) = watto::slice_from_prefix::<u32>(bytes, 4, 1).unwrap();

    assert_eq!(nums, vec![u32::from_le_bytes([0x4, 0x5, 0x6, 0x7])]);

    assert_eq!(bytes, &[]);
}

#[test]
fn test_writer() {
    let mut writer = Writer::new(vec![]);

    let num = u16::from_le_bytes([0x0, 0x1]);
    writer.write(&watto::as_bytes(&num));

    writer.align_to(std::mem::align_of::<u32>());

    let nums = &[
        u32::from_le_bytes([0x2, 0x3, 0x4, 0x5]),
        u32::from_le_bytes([0x6, 0x7, 0x8, 0x9]),
    ];
    writer.write(&watto::slice_as_bytes(nums));

    writer.align_to(32);

    let buffer = writer.into_inner();

    assert_eq!(
        buffer,
        &[
            0x0, 0x1, 0x0, 0x0, 0x2, 0x3, 0x4, 0x5, 0x6, 0x7, 0x8, 0x9, 0x0, 0x0, 0x0, 0x0, 0x0,
            0x0, 0x0, 0x0, 0x0, 0x0, 0x0, 0x0, 0x0, 0x0, 0x0, 0x0, 0x0, 0x0, 0x0, 0x0
        ]
    )
}

#[test]
fn test_offset_set() {
    let sha_1 = [1u8; 20];
    let sha_2 = [2u8; 20];
    let sha_3 = [3u8; 20];

    let mut v12 = sha_1.to_vec();
    v12.extend_from_slice(&sha_2);
    let mut v23 = sha_2.to_vec();
    v23.extend_from_slice(&sha_3);

    let mut table = OffsetSet::<u8>::new();

    let offset_empty = table.insert(&[]);
    let offset_12 = table.insert(&v12);
    let offset_23 = table.insert(&v23);

    assert_eq!(table.insert(&v12), offset_12);

    let buffer = table.as_bytes().to_vec();
    let read_empty = OffsetSet::<u8>::read(&buffer, offset_empty).unwrap();
    let read_12 = OffsetSet::<u8>::read(&buffer, offset_12).unwrap();
    let read_23 = OffsetSet::<u8>::read(&buffer, offset_23).unwrap();
    assert_eq!(read_empty, vec![]);
    assert_eq!(read_12, v12);
    assert_eq!(read_23, v23);

    // re-create the table using a serialized buffer
    let mut table = OffsetSet::<u8>::from_bytes(&buffer).unwrap();

    assert_eq!(table.insert(&v12), offset_12);

    let string_bytes = table.as_bytes().to_vec();
    let read_12 = OffsetSet::<u8>::read(&string_bytes, offset_12).unwrap();
    let read_23 = OffsetSet::<u8>::read(&string_bytes, offset_23).unwrap();
    assert_eq!(read_12, v12);
    assert_eq!(read_23, v23);
}

#[test]
fn test_string_table() {
    let mut string_table = StringTable::new();

    let offset_empty = string_table.insert("");
    let offset_abc = string_table.insert("abc");
    let offset_def = string_table.insert("def");

    assert_eq!(string_table.insert("abc"), offset_abc);

    let string_bytes = string_table.as_bytes().to_vec();
    let read_empty = StringTable::read(&string_bytes, offset_empty).unwrap();
    let read_abc = StringTable::read(&string_bytes, offset_abc).unwrap();
    let read_def = StringTable::read(&string_bytes, offset_def).unwrap();
    assert_eq!(read_empty, "");
    assert_eq!(read_abc, "abc");
    assert_eq!(read_def, "def");

    // re-create the table using a serialized buffer
    let mut string_table = StringTable::from_bytes(&string_bytes).unwrap();

    assert_eq!(string_table.insert("abc"), offset_abc);

    let string_bytes = string_table.as_bytes().to_vec();
    let read_abc = StringTable::read(&string_bytes, offset_abc).unwrap();
    let read_def = StringTable::read(&string_bytes, offset_def).unwrap();
    assert_eq!(read_abc, "abc");
    assert_eq!(read_def, "def");
}

#[test]
fn test_string_table_wire_format() {
    let mut table = StringTable::new();

    let foo_offset = table.insert("foo");
    let bar_offset = table.insert("bar");

    assert_eq!(foo_offset, 0);
    assert_eq!(bar_offset, 4);

    let bytes = table.as_bytes();
    assert_eq!(bytes, &[3, b'f', b'o', b'o', 3, b'b', b'a', b'r']);

    assert_eq!(StringTable::read(bytes, 0).unwrap(), "foo");
    assert_eq!(StringTable::read(bytes, 4).unwrap(), "bar");
}

#[test]
fn test_leb128_encodings() {
    let mut out = vec![];
    watto::write_leb128(&mut out, 0);
    assert_eq!(out, vec![0x00]);

    let mut out = vec![];
    watto::write_leb128(&mut out, 127);
    assert_eq!(out, vec![0x7f]);

    let mut out = vec![];
    watto::write_leb128(&mut out, 128);
    assert_eq!(out, vec![0x80, 0x01]);

    let mut out = vec![];
    watto::write_leb128(&mut out, 300);
    assert_eq!(out, vec![0xac, 0x02]);

    let mut out = vec![];
    watto::write_leb128(&mut out, u64::MAX);
    assert_eq!(
        out,
        vec![0xff, 0xff, 0xff, 0xff, 0xff, 0xff, 0xff, 0xff, 0xff, 0x01]
    );

    // every encoding reads back as the value it encodes, whatever follows
    for value in [0u64, 1, 127, 128, 300, 16384, u64::MAX] {
        let mut out = vec![];
        watto::write_leb128(&mut out, value);
        let written = out.len();
        out.push(0xab);
        assert_eq!(watto::read_leb128(&out, 0), Some((value, written)));
    }
}

#[test]
fn test_leb128_malformed() {
    // truncated: a continuation byte with nothing after it
    assert_eq!(watto::read_leb128(&[0x80], 0), None);
    // overlong: a spare zero byte after a continuation byte
    assert_eq!(watto::read_leb128(&[0x80, 0x00], 0), None);
    // too large for 64 bits
    let big = [0xff, 0xff, 0xff, 0xff, 0xff, 0xff, 0xff, 0xff, 0xff, 0xff, 0x01];
    assert_eq!(watto::read_leb128(&big, 0), None);
    // reading at the end of the buffer finds nothing
    assert_eq!(watto::read_leb128(&[0x05], 1), None);
}

#[test]
fn test_read_errors() {
    // an empty buffer has no length prefix
    assert_eq!(
        OffsetSet::<u8>::read(&[], 0).unwrap_err(),
        ReadOffsetSetError::Leb128
    );
    // the length prefix promises more data than the buffer holds
    assert_eq!(
        OffsetSet::<u8>::read(&[5, 1, 2], 0).unwrap_err(),
        ReadOffsetSetError::OutOfBounds
    );
    // the offset lies past the end of the buffer
    assert_eq!(
        OffsetSet::<u8>::read(&[0], 5).unwrap_err(),
        ReadOffsetSetError::OutOfBounds
    );
    // a truncated length prefix
    assert_eq!(
        OffsetSet::<u8>::read(&[0x80], 0).unwrap_err(),
        ReadOffsetSetError::Leb128
    );

    // the same errors through the string table, plus UTF-8 validation
    assert_eq!(
        StringTable::read(&[], 0).unwrap_err(),
        ReadStringError::Leb128
    );
    assert_eq!(
        StringTable::read(&[5, 1, 2], 0).unwrap_err(),
        ReadStringError::OutOfBounds
    );
    assert_eq!(
        StringTable::read(&[1, 0xff], 0).unwrap_err(),
        ReadStringError::Utf8
    );
}

#[test]
fn test_string_table_non_ascii() {
    let mut table = StringTable::new();
    let offset = table.insert("héllo wörld");
    let bytes = table.as_bytes().to_vec();
    assert_eq!(StringTable::read(&bytes, offset).unwrap(), "héllo wörld");

    let reloaded = StringTable::from_bytes(&bytes).unwrap();
    let mut reloaded = reloaded;
    assert_eq!(reloaded.insert("héllo wörld"), offset);
}

#[test]
fn test_from_bytes_errors() {
    // a truncated length prefix stops the scan
    assert_eq!(
        OffsetSet::<u8>::from_bytes(&[0x80]).unwrap_err(),
        ReadOffsetSetError::Leb128
    );
    // an entry that promises more data than the buffer holds
    assert_eq!(
        OffsetSet::<u8>::from_bytes(&[2, 65]).unwrap_err(),
        ReadOffsetSetError::OutOfBounds
    );
    // a second entry that is cut short
    assert_eq!(
        OffsetSet::<u8>::from_bytes(&[1, 65, 3, 66]).unwrap_err(),
        ReadOffsetSetError::OutOfBounds
    );
    // invalid UTF-8 is fine for a plain blob store but not for strings
    assert!(OffsetSet::<u8>::from_bytes(&[1, 0xff]).is_ok());
    assert_eq!(
        StringTable::from_bytes(&[1, 0xff]).unwrap_err(),
        ReadStringError::Utf8
    );
    assert_eq!(
        StringTable::from_bytes(&[0x80]).unwrap_err(),
        ReadStringError::Leb128
    );
}

#[test]
fn test_entries() {
    let mut table = OffsetSet::<u8>::new();
    let offset_a = table.insert(&[10, 20]);
    let offset_b = table.insert(&[30]);
    table.insert(&[10, 20]);

    let entries = table.entries();
    assert_eq!(
        entries,
        vec![(offset_a, vec![10, 20]), (offset_b, vec![30])]
    );
}

#[test]
fn test_clone_keeps_contents() {
    let mut table = StringTable::new();
    let offset = table.insert("shared");
    let copy = table.clone();
    assert_eq!(copy.as_bytes(), table.as_bytes());
    assert_eq!(StringTable::read(copy.as_bytes(), offset).unwrap(), "shared");
}

#[test]
fn test_align_to_helpers() {
    let bytes = [0u8; 10];

    // already aligned: an empty prefix
    let (prefix, suffix) = watto::align_to(&bytes, 8, 4).unwrap();
    assert_eq!(prefix.len(), 0);
    assert_eq!(suffix.len(), 10);

    // three bytes of padding to reach the next multiple of four
    let (prefix, suffix) = watto::align_to(&bytes, 5, 4).unwrap();
    assert_eq!(prefix.len(), 3);
    assert_eq!(suffix.len(), 7);

    // the buffer is too short to reach an aligned position
    let short = [0u8; 2];
    assert_eq!(watto::align_to(&short, 5, 4), None);

    assert!(watto::is_aligned_to(8, 4));
    assert!(!watto::is_aligned_to(6, 4));

    let (prefix, _) = watto::align_to_type::<u64>(&bytes, 3).unwrap();
    assert_eq!(prefix.len(), 5);
}

#[test]
fn test_writer_positions() {
    // the position counts only bytes written through the writer
    let mut writer = Writer::new(vec![9, 9, 9]);
    assert_eq!(writer.write(&[1, 2, 3]), 3);
    // three bytes written: five more reach the next multiple of eight
    assert_eq!(writer.align_to(8), 5);
    assert_eq!(writer.align_to(8), 0);
    assert_eq!(
        writer.into_inner(),
        vec![9, 9, 9, 1, 2, 3, 0, 0, 0, 0, 0]
    );

    let mut writer = Writer::new(vec![]);
    writer.align_to_type::<u32>();
    assert_eq!(writer.write(&[7]), 1);
    assert_eq!(writer.align_to_type::<u16>(), 1);
    assert_eq!(writer.into_inner(), vec![7, 0]);
}

#[test]
fn test_slice_from_prefix_too_short() {
    let bytes = [0u8; 6];
    assert_eq!(watto::slice_from_prefix::<u32>(&bytes, 0, 2), None);
    let (nums, rest) = watto::slice_from_prefix::<u32>(&bytes, 0, 1).unwrap();
    assert_eq!(nums, vec![0u32]);
    assert_eq!(rest.len(), 2);
}

#[test]
fn test_empty_entry_offsets() {
    // an empty slice is stored as a normal zero-length entry, not a sentinel
    let mut table = OffsetSet::<u8>::new();
    let offset_a = table.insert(&[7]);
    let offset_empty = table.insert(&[]);
    assert_eq!(offset_empty, 2);
    assert_eq!(table.insert(&[]), offset_empty);
    let bytes = table.into_bytes();
    assert_eq!(bytes, vec![1, 7, 0]);
    assert_eq!(OffsetSet::<u8>::read(&bytes, offset_a).unwrap(), vec![7]);
    assert_eq!(OffsetSet::<u8>::read(&bytes, offset_empty).unwrap(), vec![]);
}

#[test]
fn test_u16_views() {
    let bytes = [0x34u8, 0x12];
    assert_eq!(
        watto::ref_from_bytes::<u16>(&bytes, 0).unwrap(),
        u16::from_le_bytes([0x34, 0x12])
    );
    // right length, misaligned position
    assert_eq!(watto::ref_from_bytes::<u16>(&bytes, 1), None);
    assert_eq!(watto::as_bytes(&u16::from_le_bytes([0x34, 0x12])), vec![0x34, 0x12]);
}

#[test]
fn test_signed_and_wide_views() {
    let num: i32 = -2;
    let bytes = watto::as_bytes(&num);
    assert_eq!(bytes, vec![0xfe, 0xff, 0xff, 0xff]);
    assert_eq!(watto::ref_from_bytes::<i32>(&bytes, 0).unwrap(), -2);

    let neg: i8 = -1;
    assert_eq!(watto::as_bytes(&neg), vec![0xff]);
    assert_eq!(watto::ref_from_bytes::<i8>(&[0x80], 0).unwrap(), i8::MIN);

    let wide: u128 = 1 << 100;
    let bytes = watto::as_bytes(&wide);
    assert_eq!(bytes.len(), 16);
    assert_eq!(watto::ref_from_bytes::<u128>(&bytes, 0).unwrap(), wide);

    let nums: [i16; 2] = [-300, 300];
    let bytes = watto::slice_as_bytes(&nums);
    assert_eq!(watto::slice_from_bytes::<i16>(&bytes, 0).unwrap(), vec![-300, 300]);
}
