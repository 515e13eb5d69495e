//! Rows in blocks, the device, the scratch area, the monitor and the catalog.

use database::catalog::db_context::DbContext;
use database::catalog::table::{ColumnSpec, TableSpec};
use database::data::{Data, DataType};
use database::error::DbError;
use database::executor::compact::{keeps_budget, place_room, storage_room, CompactRowRef, Room};
use database::executor::hash::{
    partition_index_for_digest, table_reserved, table_room, JoinBloomFilter,
};
use database::io::{MemoryInput, MemoryOutput};
use database::monitor_client::MonitorClient;
use database::row::{heap_bytes, Row, Schema, SchemaColumn};
use database::storage::block_allocator::ScratchSpace;
use database::storage::disk_client::DiskClient;
use database::storage::row_codec::{
    decode_projected_rows_from_block, decode_row_from_bytes, decode_rows_from_block,
    decode_value_from_bytes, skip_value_from_bytes,
};
use database::storage::scratch_run::{write_rows_to_scratch, ScratchRunWriter};

fn schema() -> Schema {
    Schema::from_columns(vec![
        SchemaColumn { name: "a".to_string(), data_type: DataType::Int32 },
        SchemaColumn { name: "b".to_string(), data_type: DataType::String },
        SchemaColumn { name: "c".to_string(), data_type: DataType::Float64 },
    ])
}

fn row(a: i32, b: &str, c: f64) -> Row {
    Row::new(vec![Data::Int32(a), Data::String(b.to_string()), Data::Float64(c.to_bits())])
}

fn block(rows: &[Row], size: usize) -> Vec<u8> {
    let mut bytes = Vec::new();
    for row in rows {
        bytes.extend(row.to_stored().unwrap());
    }
    bytes.resize(size - 2, 0);
    bytes.extend((rows.len() as u16).to_le_bytes());
    bytes
}

#[test]
fn stored_rows_are_read_back() {
    let rows = vec![row(-7, "x\u{e9}", 0.25), row(i32::MAX, "", f64::NAN)];
    let stored = rows[0].to_stored().unwrap();
    let mut expected = (-7i32).to_le_bytes().to_vec();
    expected.extend("x\u{e9}\0".as_bytes());
    expected.extend(0.25f64.to_le_bytes());
    assert_eq!(stored, expected);
    assert_eq!(rows[0].serialized_size(), expected.len());
    assert_eq!(decode_row_from_bytes(&stored, &schema()), Ok(row(-7, "x\u{e9}", 0.25)));
    assert_eq!(decode_rows_from_block(&block(&rows, 64), &schema()), Ok(rows));
}

#[test]
fn picked_columns_are_read_from_blocks() {
    let rows = [row(1, "one", 1.5), row(2, "two", 2.5)];
    let picked =
        decode_projected_rows_from_block(&block(&rows, 64), &schema(), &vec![2, 0, 2]).unwrap();
    let float = |v: f64| Data::Float64(v.to_bits());
    assert_eq!(
        picked,
        vec![
            Row::new(vec![float(1.5), Data::Int32(1), float(1.5)]),
            Row::new(vec![float(2.5), Data::Int32(2), float(2.5)]),
        ]
    );
    assert_eq!(
        decode_projected_rows_from_block(&block(&rows, 64), &schema(), &vec![3]),
        Err(DbError::BadIndex)
    );
    assert_eq!(
        decode_projected_rows_from_block(&[0], &schema(), &vec![0]),
        Err(DbError::BlockTooShort)
    );
}

#[test]
fn texts_that_are_skipped_are_not_looked_at() {
    let mut bytes = block(&[row(1, "ab", 1.5)], 64);
    bytes[4] = 0xff;
    assert_eq!(decode_rows_from_block(&bytes, &schema()), Err(DbError::InvalidUtf8));
    assert_eq!(
        decode_projected_rows_from_block(&bytes, &schema(), &vec![0]),
        Ok(vec![Row::new(vec![Data::Int32(1)])])
    );
}

#[test]
fn bytes_that_are_no_rows_are_errors() {
    assert_eq!(decode_rows_from_block(&[1], &schema()), Err(DbError::BlockTooShort));
    assert_eq!(decode_value_from_bytes(&[1, 2, 3], DataType::Int32), Err(DbError::ShortValue));
    assert_eq!(decode_value_from_bytes(&[1; 7], DataType::Int64), Err(DbError::ShortValue));
    assert_eq!(decode_value_from_bytes(&[1; 7], DataType::String), Err(DbError::MissingTerminator));
    assert_eq!(decode_value_from_bytes(&[0xff, 0], DataType::String), Err(DbError::InvalidUtf8));
    assert_eq!(skip_value_from_bytes(&[0xff, 0], DataType::String), Ok(2));
    assert_eq!(skip_value_from_bytes(&[1; 7], DataType::Float64), Err(DbError::ShortValue));
}

#[test]
fn values_are_little_endian() {
    assert_eq!(
        decode_value_from_bytes(&(-2i64).to_le_bytes(), DataType::Int64),
        Ok((Data::Int64(-2), 8))
    );
    assert_eq!(
        decode_value_from_bytes(&1.5f32.to_le_bytes(), DataType::Float32),
        Ok((Data::Float32(1.5f32.to_bits()), 4))
    );
}

#[test]
fn rows_are_projected_and_combined() {
    let r = row(1, "x", 2.0);
    assert_eq!(
        Row::new(r.values().clone()).into_project(&vec![1, 1, 0]),
        Ok(Row::new(vec![
            Data::String("x".to_string()),
            Data::String("x".to_string()),
            Data::Int32(1)
        ]))
    );
    assert_eq!(Row::new(vec![]).into_project(&vec![0]), Err(DbError::BadIndex));
    let both = Row::combine(&Row::new(vec![Data::Int32(1)]), &Row::new(vec![Data::Int64(2)]));
    assert_eq!(both, Row::new(vec![Data::Int32(1), Data::Int64(2)]));
    assert!(r.estimated_heap_bytes() >= std::mem::size_of::<Row>() + 3 * std::mem::size_of::<Data>());
}

#[test]
fn the_device_is_asked_in_its_words() {
    let mut replies = b"64\n7\n3\n 100 \n".to_vec();
    replies.extend(vec![9u8; 128]);
    let mut disk = DiskClient::new(MemoryInput::new(replies), MemoryOutput::new());
    assert_eq!(disk.get_block_size(), Ok(64));
    assert_eq!(disk.get_block_size(), Ok(64));
    assert_eq!(disk.get_file_start_block("f"), Ok(7));
    assert_eq!(disk.get_file_num_blocks("f"), Ok(3));
    assert_eq!(disk.get_anon_start_block(), Ok(100));
    assert_eq!(disk.read_blocks(7, 2), Ok(vec![9u8; 128]));
    assert_eq!(disk.write_blocks(100, 1, &[1u8; 64]), Ok(()));
    assert_eq!(disk.write_blocks(100, 1, &[1u8; 63]), Err(DbError::TransferSize));
    assert_eq!(disk.read_blocks(0, 1), Err(DbError::Io));
    let (_, written) = disk.into_parts();
    let mut expected = b"get block-size\nget file start-block f\nget file num-blocks f\nget anon-start-block\nget block 7 2\nput block 100 1\n".to_vec();
    expected.extend([1u8; 64]);
    expected.extend(b"get block 0 1\n");
    assert_eq!(*written.bytes(), expected);
}

#[test]
fn the_size_of_blocks_is_asked_for_where_it_is_not_known() {
    let replies = b"4\n\x01\x02\x03\x04\x05\x06\x07\x08".to_vec();
    let mut disk = DiskClient::new(MemoryInput::new(replies), MemoryOutput::new());
    assert_eq!(disk.read_blocks(9, 2), Ok(vec![1, 2, 3, 4, 5, 6, 7, 8]));
    let (_, written) = disk.into_parts();
    assert_eq!(*written.bytes(), b"get block-size\nget block 9 2\n".to_vec());
    let mut disk = DiskClient::new(MemoryInput::new(b"4\n".to_vec()), MemoryOutput::new());
    assert_eq!(disk.write_blocks(9, 1, &[1, 2, 3, 4]), Ok(()));
    let (_, written) = disk.into_parts();
    assert_eq!(*written.bytes(), b"get block-size\nput block 9 1\n\x01\x02\x03\x04".to_vec());
}

#[test]
fn replies_that_are_no_numbers_are_errors() {
    let client = |text: &str| {
        DiskClient::new(MemoryInput::new(text.as_bytes().to_vec()), MemoryOutput::new())
    };
    assert_eq!(client("x\n").get_block_size(), Err(DbError::MalformedNumber));
    assert_eq!(client("").get_block_size(), Err(DbError::MalformedNumber));
    assert_eq!(client("18446744073709551616\n").get_block_size(), Err(DbError::MalformedNumber));
    assert_eq!(client("+12\n").get_block_size(), Ok(12));
    let mut broken = DiskClient::new(MemoryInput::new(vec![0xff, 10]), MemoryOutput::new());
    assert_eq!(broken.get_block_size(), Err(DbError::Io));
}

#[test]
fn scratch_blocks_are_handed_out_and_taken_back() {
    let mut scratch = ScratchSpace::new(4096, 50);
    assert_eq!(scratch.block_size(), 4096);
    assert_eq!(scratch.reserve_contiguous_blocks(3), vec![50, 51, 52]);
    assert_eq!(scratch.reserve_contiguous_blocks(2), vec![53, 54]);
    scratch.release_blocks(vec![51, 52]);
    assert_eq!(scratch.reserve_contiguous_blocks(8), vec![51, 52]);
    assert_eq!(scratch.reserve_contiguous_blocks(1), vec![55]);
}

#[test]
fn a_row_longer_than_a_block_is_not_stored() {
    let mut disk = DiskClient::new(MemoryInput::new(b"24\n".to_vec()), MemoryOutput::new());
    let mut scratch = ScratchSpace::new(24, 50);
    let mut write = |text: &str| {
        write_rows_to_scratch(&vec![row(1, text, 0.5)], &mut disk, &mut scratch).map(|_| ())
    };
    assert_eq!(write("ten chars."), Err(DbError::RowTooLarge));
    assert_eq!(write("nine char"), Ok(()));
}

#[test]
fn room_for_the_bytes_of_a_row() {
    let budget = usize::MAX;
    assert_eq!(storage_room(100, 200, 100, 0, 0), Room::Enough);
    assert_eq!(storage_room(100, 200, 101, 0, budget), Room::Reserve(262144));
    assert_eq!(storage_room(2000000, 2000000, 1, 0, budget), Room::Reserve(500000));
    assert_eq!(storage_room(8000000, 8000000, 1, 0, budget), Room::Reserve(1048576));
    assert_eq!(storage_room(0, 0, 2000000, 0, budget), Room::Reserve(2000000));
    assert_eq!(storage_room(100, 100, 1, 56, 262300), Room::Reserve(262144));
    assert_eq!(storage_room(100, 100, 1, 57, 262300), Room::BeyondBudget);
}

#[test]
fn room_for_the_place_of_a_row() {
    let budget = usize::MAX;
    assert_eq!(place_room(9, 10, 16, 0, 0), Room::Enough);
    assert_eq!(place_room(10, 10, 16, 0, budget), Room::Reserve(4096));
    assert_eq!(place_room(40000, 40000, 16, 0, budget), Room::Reserve(10000));
    assert_eq!(place_room(400000, 400000, 16, 0, budget), Room::Reserve(32768));
    assert_eq!(place_room(4, 4, 16, 400, 66000), Room::Reserve(4096));
    assert_eq!(place_room(4, 4, 16, 401, 66000), Room::BeyondBudget);
}

#[test]
fn the_monitor_gets_its_rows() {
    let input = MemoryInput::new(b"{\"root\":1}\n512\n".to_vec());
    let mut monitor = MonitorClient::new(input, MemoryOutput::new());
    assert_eq!(monitor.read_query(), Ok("{\"root\":1}\n".to_string()));
    assert_eq!(monitor.get_memory_limit_mb(), Ok(512));
    monitor.begin_validation().unwrap();
    monitor.send_row(&row(-1, "x|y", 1.5), &vec!["1.5".to_string()]).unwrap();
    monitor.finish_validation().unwrap();
    assert_eq!(
        *monitor.into_writer().bytes(),
        b"get_memory_limit\nvalidate\n-1|x|y|1.5|\n!\n".to_vec()
    );
}

#[test]
fn blank_queries_and_odd_limits_are_errors() {
    let client = |text: &str| {
        MonitorClient::new(MemoryInput::new(text.as_bytes().to_vec()), MemoryOutput::new())
    };
    assert_eq!(client(" \t\n").read_query(), Err(DbError::EmptyQuery));
    assert_eq!(client("4294967296\n").get_memory_limit_mb(), Err(DbError::MalformedNumber));
    assert_eq!(client("4294967295\n").get_memory_limit_mb(), Ok(u32::MAX));
    let mut twice = client("64\n-1\n");
    assert_eq!(twice.get_memory_limit_mb(), Ok(64));
    assert_eq!(twice.get_memory_limit_mb(), Err(DbError::MalformedNumber));
    assert_eq!(
        *twice.into_writer().bytes(),
        b"get_memory_limit\nget_memory_limit\n".to_vec()
    );
}

#[test]
fn faulty_tables_make_no_context() {
    let table = |name: &str, file: &str, columns: &[&str]| TableSpec {
        name: name.to_string(),
        file_id: file.to_string(),
        column_specs: columns
            .iter()
            .map(|c| ColumnSpec {
                column_name: c.to_string(),
                data_type: DataType::Int32,
                stats: None,
            })
            .collect(),
    };
    let result = |tables: Vec<TableSpec>| DbContext::from(tables).map(|c| c.table_specs().len());
    assert_eq!(result(vec![table("a", "x", &["c"]), table("b", "y", &["c"])]), Ok(2));
    assert_eq!(result(vec![table(" ", "x", &["c"])]), Err(DbError::EmptyTableName));
    assert_eq!(result(vec![table("a", "\t", &["c"])]), Err(DbError::EmptyFileId));
    assert_eq!(result(vec![table("a", "x", &[])]), Err(DbError::NoColumns));
    assert_eq!(
        result(vec![table("a", "x", &["c"]), table("a", "y", &["c"])]),
        Err(DbError::DuplicateTableName)
    );
    assert_eq!(
        result(vec![table("a", "x", &["c"]), table("b", "x", &["c"])]),
        Err(DbError::DuplicateFileId)
    );
    assert_eq!(result(vec![table("a", "x", &["c", ""])]), Err(DbError::EmptyColumnName));
    assert_eq!(result(vec![table("a", "x", &["c", "c"])]), Err(DbError::DuplicateColumnName));
}

#[test]
fn what_a_table_of_stored_rows_takes() {
    let place = std::mem::size_of::<Box<[u8]>>();
    let first = 8 + std::mem::size_of::<Vec<Box<[u8]>>>() + 2 * place;
    assert_eq!(table_room(100, 20, false, 0, 120 + place), Some(120 + place));
    assert_eq!(table_room(100, 20, false, 1, 120 + place), None);
    assert_eq!(table_room(100, 20, true, 5, 125 + first), Some(120 + first));
    assert_eq!(table_room(100, 20, true, 5, 124 + first), None);
    assert_eq!(table_room(usize::MAX, 20, true, 5, usize::MAX), Some(usize::MAX));
    let entry = std::mem::size_of::<(u64, Vec<Box<[u8]>>)>();
    assert_eq!(table_reserved(7, 4), 14 * entry + 4 * place);
    assert_eq!(table_reserved(usize::MAX, 1), usize::MAX);
}

#[test]
fn what_a_row_takes_in_memory() {
    let row = std::mem::size_of::<Row>();
    assert_eq!(heap_bytes(0, 0), row);
    assert_eq!(heap_bytes(3, 10), row + 3 * std::mem::size_of::<Data>() + 10);
    assert_eq!(heap_bytes(usize::MAX, 10), usize::MAX);
}

#[test]
fn what_compact_rows_may_take() {
    let place = std::mem::size_of::<CompactRowRef>();
    assert!(keeps_budget(100, 3, 100 + 3 * place));
    assert!(!keeps_budget(101, 3, 100 + 3 * place));
    assert!(!keeps_budget(0, usize::MAX, usize::MAX - 1));
}

#[test]
fn rows_are_packed_into_blocks() {
    let mut disk = DiskClient::new(MemoryInput::new(b"30\n".to_vec()), MemoryOutput::new());
    let mut scratch = ScratchSpace::new(30, 50);
    let rows = vec![row(1, "", 0.5), row(2, "", 1.5), row(3, "", 2.5)];
    assert!(write_rows_to_scratch(&rows, &mut disk, &mut scratch).is_ok());
    let (_, written) = disk.into_parts();
    let mut expected = b"get block-size\nput block 50 2\n".to_vec();
    expected.extend(block(&rows[..2], 30));
    expected.extend(block(&rows[2..], 30));
    assert_eq!(*written.bytes(), expected);
    assert_eq!(scratch.reserve_contiguous_blocks(1), vec![52]);
}

#[test]
fn blocks_that_are_not_filled_are_given_back() {
    let mut disk = DiskClient::new(MemoryInput::new(b"10\n".to_vec()), MemoryOutput::new());
    let mut scratch = ScratchSpace::new(10, 5);
    let mut writer = ScratchRunWriter::new(&disk, &scratch, 10);
    for _ in 0..3 {
        assert!(writer.push_encoded_row(&[1u8; 8], &mut disk, &mut scratch).is_ok());
    }
    let run = writer.finish(&mut disk, &mut scratch).unwrap();
    assert_eq!(*run.block_ids(), vec![5, 6, 7]);
    let (_, written) = disk.into_parts();
    let mut expected = b"get block-size\nput block 5 3\n".to_vec();
    for _ in 0..3 {
        expected.extend([1u8; 8]);
        expected.extend([1, 0]);
    }
    assert_eq!(*written.bytes(), expected);
    assert_eq!(scratch.reserve_contiguous_blocks(100), (8..=68).collect::<Vec<u64>>());
}

#[test]
fn a_row_that_is_too_long_costs_nothing() {
    let mut disk = DiskClient::new(MemoryInput::new(Vec::new()), MemoryOutput::new());
    let mut scratch = ScratchSpace::new(24, 50);
    let rows = vec![row(1, "ten chars.", 0.5)];
    assert!(write_rows_to_scratch(&rows, &mut disk, &mut scratch).is_err());
    let (_, written) = disk.into_parts();
    assert_eq!(*written.bytes(), Vec::<u8>::new());
    assert_eq!(scratch.reserve_contiguous_blocks(1), vec![50]);
}

#[test]
fn join_filters_show_what_was_put_in() {
    let mut filter = JoinBloomFilter::new(64);
    for d in 0..100u64 {
        assert!(!filter.may_contain(d));
    }
    filter.insert(7);
    filter.insert(u64::MAX);
    assert!(filter.may_contain(7) && filter.may_contain(u64::MAX));
    let shown = (0..1000u64).filter(|d| filter.may_contain(*d)).count();
    assert!(shown < 20);
}

#[test]
fn digests_choose_partitions_by_their_bits() {
    assert_eq!(partition_index_for_digest(0b101_110, 0), 6);
    assert_eq!(partition_index_for_digest(0b101_110, 1), 5);
    assert_eq!(partition_index_for_digest(u64::MAX, 21), 1);
}
