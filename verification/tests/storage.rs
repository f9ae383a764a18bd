use exocore::buffer_manager::BufferManager;
use exocore::codec::{append_le, decode_row_from_page, encode_row_into, read_le};
use exocore::error::{DbError, DecodeError};
use exocore::memory::QueryMemoryManager;
use exocore::row::Row;
use exocore::temp_run::{ReadStep, TempRunReader, TempRunWriter};
use exocore::temp_storage::{TempFileId, TempPageId, TempStorageManager};
use exocore::value::Data;
use std::collections::HashMap;

const SIZE: usize = 64;

fn text(s: &str) -> Data {
    Data::String(s.to_string())
}

fn flush(storage: &mut TempStorageManager, disk: &mut HashMap<u64, Vec<u8>>) {
    for w in storage.take_writes() {
        for i in 0..w.range.num_blocks {
            let at = i as usize * SIZE;
            disk.insert(w.range.start_block + i, w.data[at..at + SIZE].to_vec());
        }
    }
}

#[test]
fn numbers_are_stored_least_significant_byte_first() {
    let mut out = vec![9];
    append_le(&mut out, 0x0102_0304, 4);
    append_le(&mut out, 0xffff_0001, 2);
    assert_eq!(out, vec![9, 4, 3, 2, 1, 1, 0]);
    assert_eq!(read_le(&out, 1, 4), 0x0102_0304);
}

#[test]
fn an_encoded_row_is_decoded_again() {
    let r = Row::new(vec![
        Data::Int32(-1),
        Data::Int64(i64::MIN),
        Data::Float32(1.5f32.to_bits()),
        Data::Float64(f64::NAN.to_bits()),
        text("größe"),
    ]);
    let mut payload = Vec::new();
    encode_row_into(&r, &mut payload).unwrap();
    assert_eq!(&payload[..7], &[5, 0, 1, 0xff, 0xff, 0xff, 0xff]);
    let mut page = (payload.len() as u32).to_le_bytes().to_vec();
    page.extend_from_slice(&payload);
    page.extend_from_slice(&[1, 0]);
    let mut at = 0;
    let back = decode_row_from_page(&page, &mut at).unwrap();
    assert_eq!(format!("{:?}", back.values()), format!("{:?}", r.values()));
    assert_eq!(at, page.len() - 2);
}

fn page_of(payload: &[u8]) -> Vec<u8> {
    let mut page = (payload.len() as u32).to_le_bytes().to_vec();
    page.extend_from_slice(payload);
    page.extend_from_slice(&[1, 0]);
    page
}

#[test]
fn bytes_that_are_no_row_are_turned_down() {
    let cases: Vec<(Vec<u8>, DecodeError)> = vec![
        (page_of(&[1]), DecodeError::MissingFieldCount),
        (page_of(&[1, 0]), DecodeError::MissingTag),
        (page_of(&[1, 0, 1, 0]), DecodeError::FieldOverrun),
        (page_of(&[1, 0, 9]), DecodeError::UnknownTag(9)),
        (page_of(&[1, 0, 5, 1, 0, 0, 0, 0xff]), DecodeError::InvalidText),
        (page_of(&[0, 0, 7]), DecodeError::TrailingBytes),
        (vec![200, 0, 0, 0, 0, 0], DecodeError::PayloadOverrun),
        (vec![1, 0, 0], DecodeError::LengthOverrun),
    ];
    for (page, want) in cases {
        let mut at = 0;
        assert_eq!(
            decode_row_from_page(&page, &mut at).err(),
            Some(DbError::Decode(want)),
            "{page:?}"
        );
        let read = if want == DecodeError::LengthOverrun { 0 } else { 4 };
        assert_eq!(at, read, "{page:?}");
    }
}

#[test]
fn a_row_behind_the_end_of_a_page_has_no_length() {
    let page = page_of(&[0, 0]);
    for start in [page.len() - 4, page.len(), 1000, usize::MAX] {
        let mut at = start;
        assert_eq!(
            decode_row_from_page(&page, &mut at).err(),
            Some(DbError::Decode(DecodeError::LengthOverrun)),
            "{start}"
        );
        assert_eq!(at, start);
    }
}

#[test]
fn storage_needs_blocks_of_some_size() {
    assert_eq!(TempStorageManager::new(63).err(), Some(DbError::BlockSizeTooSmall(63)));
    assert_eq!(TempStorageManager::new(64).unwrap().block_size(), 64);
}

#[test]
fn files_are_made_and_deleted() {
    let mut s = TempStorageManager::new(SIZE).unwrap();
    let f = s.create_temp_file().unwrap();
    let g = s.create_temp_file().unwrap();
    assert_ne!(f, g);
    assert_eq!(s.num_pages(f), Ok(0));
    assert_eq!(s.allocate_page(f), Err(DbError::AnonRegionUnknown));
    s.init_anon_region(1000);
    s.init_anon_region(5);
    assert!(s.anon_region_known());
    let p = s.allocate_page(f).unwrap();
    assert_eq!(p, TempPageId { file_id: f, page_index: 0 });
    assert_eq!(s.read_page(p, SIZE).unwrap().start_block, 1000);
    assert_eq!(s.delete_temp_file(f), Ok(()));
    assert_eq!(s.num_pages(f), Err(DbError::UnknownTempFile(f.0)));
    assert_eq!(s.delete_temp_file(f), Err(DbError::UnknownTempFile(f.0)));
}

#[test]
fn freed_blocks_are_used_again_by_best_fit() {
    let mut s = TempStorageManager::new(SIZE).unwrap();
    s.init_anon_region(0);
    let files: Vec<TempFileId> = (0..5).map(|_| s.create_temp_file().unwrap()).collect();
    for (f, n) in files.iter().zip([8u64, 1, 3, 1, 5]) {
        s.allocate_extent(*f, n).unwrap();
    }
    s.delete_temp_file(files[0]).unwrap();
    s.delete_temp_file(files[2]).unwrap();
    let g = s.create_temp_file().unwrap();
    s.allocate_extent(g, 3).unwrap();
    assert_eq!(s.locate(g, 0).unwrap().0, 9);
    let h = s.create_temp_file().unwrap();
    s.allocate_extent(h, 2).unwrap();
    assert_eq!(s.locate(h, 0).unwrap().0, 0);
    let k = s.create_temp_file().unwrap();
    s.allocate_extent(k, 100).unwrap();
    assert_eq!(s.locate(k, 0).unwrap().0, 18);
    assert_eq!(s.allocate_extent(k, 0).err(), Some(DbError::ZeroPageExtent));
}

#[test]
fn pages_are_written_and_read_back() {
    let mut s = TempStorageManager::new(SIZE).unwrap();
    let mut disk = HashMap::new();
    s.init_anon_region(7);
    let f = s.create_temp_file().unwrap();
    let data: Vec<u8> = (0..2 * SIZE).map(|i| i as u8).collect();
    s.append_pages(f, 2, &data).unwrap();
    flush(&mut s, &mut disk);
    assert_eq!(s.num_pages(f), Ok(2));
    let page = TempPageId { file_id: f, page_index: 1 };
    let range = s.read_page(page, SIZE).unwrap();
    assert_eq!(disk[&range.start_block], data[SIZE..]);
    s.write_page(page, &vec![3; SIZE]).unwrap();
    flush(&mut s, &mut disk);
    assert_eq!(disk[&range.start_block], vec![3; SIZE]);
    let both = s.read_pages(TempPageId { file_id: f, page_index: 0 }, 2, 2 * SIZE).unwrap();
    assert_eq!((both.start_block, both.num_blocks), (7, 2));
    assert_eq!(
        s.read_page(TempPageId { file_id: f, page_index: 2 }, SIZE).err(),
        Some(DbError::PageOutOfBounds { page: 2, file: f.0, num_pages: 2 })
    );
    assert_eq!(
        s.write_page(page, &[0]).err(),
        Some(DbError::BufferLengthMismatch { len: 1, num_pages: 1, block_size: SIZE })
    );
    assert_eq!(s.read_pages(page, 0, 1).err(), Some(DbError::BufferForNoPages));
    assert_eq!(s.append_pages(f, 0, &[]).err(), Some(DbError::ZeroPageExtent));
}

#[test]
fn a_run_gives_back_the_rows_that_were_written() {
    let mut s = TempStorageManager::new(SIZE).unwrap();
    let mut disk = HashMap::new();
    s.init_anon_region(0);
    let mut w = TempRunWriter::with_batch_pages(&mut s, 2).unwrap();
    let rows: Vec<Row> = (0..40)
        .map(|i| Row::new(vec![Data::Int32(i), text(&"x".repeat((i % 7) as usize))]))
        .collect();
    for r in &rows {
        w.append_row(r, &mut s).unwrap();
    }
    let f = w.finish(&mut s).unwrap();
    flush(&mut s, &mut disk);
    let mut reader = TempRunReader::with_batch_pages(&s, f, 3).unwrap();
    let mut back = Vec::new();
    loop {
        match reader.next_row(&s).unwrap() {
            ReadStep::Row(r) => back.push(format!("{:?}", r.values())),
            ReadStep::End => break,
            ReadStep::Need(ranges) => {
                let mut data = Vec::new();
                for range in ranges {
                    for b in range.start_block..range.start_block + range.num_blocks {
                        data.extend_from_slice(&disk[&b]);
                    }
                }
                reader.supply(data).unwrap();
            }
        }
    }
    let want: Vec<String> = rows.iter().map(|r| format!("{:?}", r.values())).collect();
    assert_eq!(back, want);
    assert_eq!(TempRunWriter::with_batch_pages(&mut s, 0).err(), Some(DbError::ZeroBatch));
}

#[test]
fn an_empty_run_is_one_page_without_rows() {
    let mut s = TempStorageManager::new(SIZE).unwrap();
    s.init_anon_region(0);
    let w = TempRunWriter::with_batch_pages(&mut s, 2).unwrap();
    let f = w.finish(&mut s).unwrap();
    assert_eq!(s.num_pages(f), Ok(1));
    let writes = s.take_writes();
    assert_eq!(writes.len(), 1);
    assert_eq!(writes[0].data[SIZE - 2..], [0, 0]);
    let mut reader = TempRunReader::new(&s, f).unwrap();
    assert!(matches!(reader.next_row(&s), Ok(ReadStep::Need(_))));
    reader.supply(writes[0].data.clone()).unwrap();
    assert!(matches!(reader.next_row(&s), Ok(ReadStep::End)));
    assert!(matches!(reader.next_row(&s), Ok(ReadStep::End)));
}

#[test]
fn a_run_is_written_in_batches_of_pages() {
    for (rows, pages) in [(1, 1), (8, 2), (12, 3), (13, 4), (16, 4), (17, 5)] {
        let mut s = TempStorageManager::new(SIZE).unwrap();
        s.init_anon_region(0);
        let mut w = TempRunWriter::with_batch_pages(&mut s, 2).unwrap();
        for i in 0..rows {
            w.append_row(&Row::new(vec![Data::Int64(i)]), &mut s).unwrap();
        }
        let f = w.finish(&mut s).unwrap();
        assert_eq!(s.num_pages(f), Ok(pages), "{rows}");
        let mut counts = Vec::new();
        let mut sizes = Vec::new();
        for w in s.take_writes() {
            sizes.push(w.range.num_blocks);
            for page in w.data.chunks(SIZE) {
                counts.push(u16::from_le_bytes([page[SIZE - 2], page[SIZE - 1]]) as i64);
            }
        }
        assert_eq!(sizes.len() as u64, (pages + 1) / 2, "{rows}");
        assert!(sizes[..sizes.len() - 1].iter().all(|n| *n == 2), "{rows}");
        assert!(counts.iter().all(|n| *n > 0), "{rows}");
        assert_eq!(counts.iter().sum::<i64>(), rows);
    }
}

#[test]
fn a_row_larger_than_a_page_is_turned_down() {
    let mut s = TempStorageManager::new(SIZE).unwrap();
    s.init_anon_region(0);
    let mut w = TempRunWriter::new(&mut s).unwrap();
    let e = w.append_row(&Row::new(vec![text(&"x".repeat(100))]), &mut s).err();
    assert_eq!(e, Some(DbError::RowTooLarge { record_len: 4 + 2 + 5 + 100, usable: SIZE - 2 }));
}

#[test]
fn memory_is_reserved_up_to_the_budget() {
    let mut m = QueryMemoryManager::new(100);
    assert_eq!(m.try_reserve(60), Ok(()));
    assert_eq!(
        m.try_reserve(41),
        Err(DbError::MemoryBudgetExceeded { requested: 41, used: 60, budget: 100 })
    );
    assert_eq!(m.try_reserve(usize::MAX), Err(DbError::MemoryAccountingOverflow(usize::MAX)));
    assert_eq!(m.try_reserve(40), Ok(()));
    assert_eq!((m.used_bytes(), m.available_bytes(), m.budget_bytes()), (100, 0, 100));
    m.release(70);
    m.release(70);
    assert_eq!((m.used_bytes(), m.peak_used_bytes()), (0, 100));
}

#[test]
fn the_buffer_gives_up_the_block_that_came_first() {
    assert_eq!(BufferManager::new(4, 0).err(), Some(DbError::NoBufferCapacity));
    let mut m = BufferManager::new(4, 2).unwrap();
    assert_eq!((m.block_size(), m.capacity()), (4, 2));
    assert!(m.get_block(1).is_none());
    m.put_block(1, vec![1; 4]).unwrap();
    m.put_block(2, vec![2; 4]).unwrap();
    assert_eq!(m.get_block(1), Some(&[1u8, 1, 1, 1][..]));
    m.put_block(3, vec![3; 4]).unwrap();
    assert!(!m.contains(1));
    assert!(m.contains(2) && m.contains(3));
    m.put_block(1, vec![9; 4]).unwrap();
    assert!(!m.contains(2));
    assert_eq!(m.get_block(1), Some(&[9u8, 9, 9, 9][..]));
    assert_eq!(
        m.put_block(5, vec![0]),
        Err(DbError::BufferLengthMismatch { len: 1, num_pages: 1, block_size: 4 })
    );
}
