use shadowd::algoritm::cursors::Cursor;
use shadowd::block::base_sheet_shadowd_block::{BaseSheetShadowdBlock, FlushStep, ReadRequest};
use shadowd::block::insert_helpers::{
    BufferStates, InsertResultItem, TransitOption, TransitOptions, TransitStates, TransportContext,
};

/// A disk image in memory that behaves like the random-access file: reads past
/// the end give no bytes.
struct MemDisk {
    bytes: Vec<u8>,
}

impl MemDisk {
    fn new() -> Self {
        MemDisk { bytes: Vec::new() }
    }

    fn write_at(&mut self, off: u64, data: &[u8]) {
        let off = off as usize;
        if self.bytes.len() < off + data.len() {
            self.bytes.resize(off + data.len(), 0);
        }
        self.bytes[off..off + data.len()].copy_from_slice(data);
    }

    fn read_at(&self, count: usize, off: u64) -> Vec<u8> {
        let off = off as usize;
        if off + count > self.bytes.len() {
            return Vec::new();
        }
        self.bytes[off..off + count].to_vec()
    }
}

fn load(block: &mut BaseSheetShadowdBlock, disk: &MemDisk) {
    let ReadRequest { off, count, .. } = block.header_request();
    let head = disk.read_at(count, off);
    if let Some(req) = block.load_header(&head) {
        let raw = disk.read_at(req.count, req.off);
        block.load_data(&raw);
    }
}

fn flush(block: &mut BaseSheetShadowdBlock, disk: &mut MemDisk) {
    match block.write_intern() {
        FlushStep::Write(header, data) => {
            disk.write_at(header.off, &header.data);
            disk.write_at(data.off, &data.data);
            block.mark_clean();
        }
        FlushStep::Load => load(block, disk),
        FlushStep::Clean => {}
    }
}

fn loaded_block_with(bytes: &[u8]) -> BaseSheetShadowdBlock {
    let disk = MemDisk::new();
    let mut block = BaseSheetShadowdBlock::new(0, 0, 1);
    load(&mut block, &disk);
    let mut data = bytes.to_vec();
    block.write_block(&mut data);
    block
}

fn options<'a>(
    option: TransitOption,
    pos: &'a Cursor,
    data: &'a Vec<u8>,
    increment_size: bool,
    context: TransportContext,
    indicator: usize,
) -> TransitOptions<'a> {
    TransitOptions { option, pos, indicator, increment_size, data, context }
}

#[test]
fn block_test() {
    let mut disk = MemDisk::new();
    let mut block = BaseSheetShadowdBlock::new(0, 0, 1);
    let data_1 = "Un BaseSheetShadowdBlock es encencia el pilar de toda la infraestructura shadowd. ";
    let mut data_1_v = Vec::new();
    data_1_v.extend_from_slice(data_1.as_bytes());
    let data_1_l = data_1_v.len().clone();
    let mut cur = Cursor::new();

    assert_eq!(block.writed_bytes(), 0, "el bloque deberia de estar vacio");

    if !block.is_loaded() {
        load(&mut block, &disk);
    }
    let u_result_1 = block.write_block(&mut data_1_v.clone());
    assert_eq!(u_result_1.remaining, 0, "No deberian de sobrar bytes aqui");
    assert_eq!(u_result_1.remaining + u_result_1.written, data_1_l, "No se escribieron todos los bytes");
    let step = block.write_intern();
    assert!(matches!(step, FlushStep::Write(_, _)), "algo fallo en persistencia");
    if let FlushStep::Write(header, data) = step {
        disk.write_at(header.off, &header.data);
        disk.write_at(data.off, &data.data);
        block.mark_clean();
    }

    let mut block2 = BaseSheetShadowdBlock::new(0, 0, 1);
    if !block2.is_loaded() {
        load(&mut block2, &disk);
    }
    let result_2 = block2.read_to(&mut cur, data_1_l);
    assert!(result_2.is_some(), "algo salio mal leyendo");
    let val = result_2.unwrap();
    assert_eq!(val, data_1_v, "La ofuscacion tiene errores")
}

#[test]
fn new_block_counts_its_data_bytes_free() {
    let block = BaseSheetShadowdBlock::new(3, 2, 1);
    assert_eq!(block.free_bytes(), 279);
    assert_eq!(block.writed_bytes(), 0);
    assert!(block.is_free());
    assert!(!block.is_loaded());
    assert_eq!(block.header_request(), ReadRequest { disk: 2, off: 283 * 3, count: 4 });
    assert_eq!(BaseSheetShadowdBlock::layer(), 1);
}

#[test]
fn empty_header_loads_an_empty_block() {
    let mut block = BaseSheetShadowdBlock::new(0, 0, 1);
    assert_eq!(block.load_header(&Vec::new()), None);
    assert!(block.is_loaded());
    assert_eq!(block.free_bytes(), 279);
    assert!(block.is_free());
}

#[test]
fn header_is_capped_at_the_data_size() {
    let mut block = BaseSheetShadowdBlock::new(1, 0, 1);
    let req = block.load_header(&vec![0, 0, 2, 0]).unwrap();
    assert_eq!(req, ReadRequest { disk: 0, off: 287, count: 279 });
    assert_eq!(block.writed_bytes(), 279);
    assert_eq!(block.free_bytes(), 0);
    assert!(!block.is_free());
    assert!(!block.is_loaded());
}

#[test]
fn write_intern_of_unloaded_block_asks_to_load() {
    let block = BaseSheetShadowdBlock::new(0, 0, 1);
    assert!(matches!(block.write_intern(), FlushStep::Load));
}

#[test]
fn clean_block_needs_no_write() {
    let mut disk = MemDisk::new();
    let mut block = loaded_block_with(b"abc");
    flush(&mut block, &mut disk);
    assert!(matches!(block.write_intern(), FlushStep::Clean));
}

#[test]
fn written_bytes_are_hidden_on_disk() {
    let mut disk = MemDisk::new();
    let mut block = loaded_block_with(&[0u8; 16]);
    flush(&mut block, &mut disk);
    assert_eq!(&disk.bytes[0..4], &[0, 0, 0, 16]);
    // XOR with a key: the zero bytes now show the key, repeating every 8 bytes.
    assert_eq!(&disk.bytes[4..12], &disk.bytes[12..20]);
    assert_ne!(&disk.bytes[4..12], &[0u8; 8]);
}

#[test]
fn blocks_of_different_places_hide_differently() {
    let mut d1 = MemDisk::new();
    let mut d2 = MemDisk::new();
    let mut b1 = loaded_block_with(&[0u8; 8]);
    flush(&mut b1, &mut d1);
    let mut b2 = BaseSheetShadowdBlock::new(0, 1, 1);
    load(&mut b2, &MemDisk::new());
    let mut data = vec![0u8; 8];
    b2.write_block(&mut data);
    flush(&mut b2, &mut d2);
    assert_ne!(&d1.bytes[4..12], &d2.bytes[4..12]);
}

#[test]
fn write_block_to_full_block_hands_everything_back() {
    let mut block = loaded_block_with(&[7u8; 279]);
    assert_eq!(block.free_bytes(), 0);
    let mut more = vec![1, 2, 3];
    let r = block.write_block(&mut more);
    assert_eq!(r.result, InsertResultItem::BufferIsFull);
    assert_eq!(r.state, BufferStates::Full);
    assert_eq!(r.remaining, 3);
    assert_eq!(r.written, 0);
    assert_eq!(r.remaining_bytes, vec![1, 2, 3]);
    assert!(more.is_empty());
}

#[test]
fn write_block_splits_what_does_not_fit() {
    let mut block = loaded_block_with(&[7u8; 272]);
    let mut more: Vec<u8> = (0..10).collect();
    let r = block.write_block(&mut more);
    assert_eq!(r.written, 7);
    assert_eq!(r.remaining, 3);
    assert_eq!(r.remaining_bytes, vec![7, 8, 9]);
    assert_eq!(r.result, InsertResultItem::InsertedWithRemaining);
    assert_eq!(r.state, BufferStates::Full);
    assert_eq!(block.writed_bytes(), 279);
    assert_eq!(block.free_bytes(), 0);
    assert_eq!(block.buffer().len(), 279);
}

#[test]
fn write_block_partially_fills() {
    let block = loaded_block_with(b"hello");
    assert_eq!(block.writed_bytes(), 5);
    assert_eq!(block.free_bytes(), 274);
    let mut block = block;
    let mut empty = Vec::new();
    let r = block.write_block(&mut empty);
    assert_eq!(r.state, BufferStates::PartiallyFull);
    assert_eq!(r.result, InsertResultItem::InsertedWithoutRemaining);
}

#[test]
fn read_to_advances_once_per_whole_entry() {
    let block = loaded_block_with(&[5u8; 30]);
    let mut cur = Cursor::new();
    let got = block.read_to(&mut cur, 25).unwrap();
    assert_eq!(got.len(), 25);
    let mut bytes = Vec::new();
    cur.serialize_into(&mut bytes);
    assert_eq!(bytes[15], 2);
}

#[test]
fn read_to_starts_at_the_cursor_entry() {
    let data: Vec<u8> = (0..40).collect();
    let block = loaded_block_with(&data);
    let mut cur = Cursor::new();
    assert!(cur.set_pos(1, 2));
    let got = block.read_to(&mut cur, 100).unwrap();
    assert_eq!(got, (22..40).collect::<Vec<u8>>());
}

#[test]
fn directory_insert_into_occupied_entry_is_refused() {
    let mut block = loaded_block_with(&[1u8; 22]);
    let cur = Cursor::new();
    let entry = vec![9u8; 11];
    let r = block
        .insert_to(&options(TransitOption::InsertInPos, &cur, &entry, true, TransportContext::Directory, 0))
        .unwrap();
    assert_eq!(r.state, TransitStates::IlegalAcction);
    assert_eq!(r.action, TransitOption::Finalize);
    assert_eq!(r.data, entry);
    assert!(!r.increment_size);
}

#[test]
fn directory_insert_fills_a_free_entry() {
    let mut block = loaded_block_with(&[0u8; 22]);
    let mut cur = Cursor::new();
    cur.set_pos(1, 1);
    let entry = vec![9u8; 11];
    let r = block
        .insert_to(&options(TransitOption::InsertInPos, &cur, &entry, true, TransportContext::Directory, 0))
        .unwrap();
    assert_eq!(r.state, TransitStates::Success);
    assert!(r.increment_size);
    assert!(r.data.is_empty());
    let mut expected = vec![0u8; 11];
    expected.extend_from_slice(&entry);
    assert_eq!(block.buffer(), &expected);
    assert_eq!(block.writed_bytes(), 22);
}

#[test]
fn directory_insert_of_a_wrong_size_answers_none() {
    let mut block = loaded_block_with(&[0u8; 22]);
    let cur = Cursor::new();
    let entry = vec![9u8; 5];
    let r = block.insert_to(&options(TransitOption::InsertInPos, &cur, &entry, true, TransportContext::Directory, 0));
    assert!(r.is_none());
    assert_eq!(block.buffer(), &vec![0u8; 22]);
}

#[test]
fn insert_begin_puts_bytes_first() {
    let mut block = loaded_block_with(b"world");
    let cur = Cursor::new();
    let data = b"hello ".to_vec();
    let r = block
        .insert_to(&options(TransitOption::InsertBegin, &cur, &data, false, TransportContext::File, 0))
        .unwrap();
    assert_eq!(r.state, TransitStates::Success);
    assert_eq!(r.action, TransitOption::Finalize);
    assert!(r.data.is_empty());
    assert_eq!(block.buffer(), &b"hello world".to_vec());
    assert_eq!(block.writed_bytes(), 11);
    assert_eq!(block.free_bytes(), 268);
}

#[test]
fn insert_begin_without_room_is_refused() {
    let mut block = loaded_block_with(&[1u8; 250]);
    let cur = Cursor::new();
    let data = vec![2u8; 29];
    let r = block
        .insert_to(&options(TransitOption::InsertBegin, &cur, &data, false, TransportContext::File, 0))
        .unwrap();
    assert_eq!(r.state, TransitStates::Error1);
    assert_eq!(r.data, data);
    assert_eq!(block.buffer().len(), 250);
}

#[test]
fn insert_begin_with_increment_moves_the_overflow_on() {
    let mut block = loaded_block_with(&[1u8; 250]);
    let cur = Cursor::new();
    let data = vec![2u8; 50];
    let r = block
        .insert_to(&options(TransitOption::InsertBegin, &cur, &data, true, TransportContext::File, 0))
        .unwrap();
    assert_eq!(r.state, TransitStates::MoveToEnd);
    assert_eq!(r.action, TransitOption::InsertBegin);
    assert_eq!(r.data, vec![1u8; 21]);
    assert_eq!(block.buffer().len(), 279);
    assert_eq!(block.writed_bytes(), 279);
    assert_eq!(block.free_bytes(), 0);
}

#[test]
fn insert_end_appends() {
    let mut block = loaded_block_with(b"abc");
    let cur = Cursor::new();
    let data = b"def".to_vec();
    let r = block
        .insert_to(&options(TransitOption::InsertEnd, &cur, &data, false, TransportContext::File, 0))
        .unwrap();
    assert_eq!(r.state, TransitStates::Success);
    assert_eq!(block.buffer(), &b"abcdef".to_vec());
    assert_eq!(block.writed_bytes(), 6);
    assert_eq!(block.free_bytes(), 273);
}

#[test]
fn insert_end_without_room_is_refused() {
    let mut block = loaded_block_with(&[1u8; 277]);
    let cur = Cursor::new();
    let data = vec![2u8; 5];
    let r = block
        .insert_to(&options(TransitOption::InsertEnd, &cur, &data, false, TransportContext::File, 0))
        .unwrap();
    assert_eq!(r.state, TransitStates::Error1);
    assert_eq!(r.data, data);
    assert_eq!(block.buffer().len(), 277);
}

#[test]
fn insert_end_into_full_block() {
    let mut block = BaseSheetShadowdBlock::new(0, 0, 1);
    load(&mut block, &MemDisk::new());
    let cur = Cursor::new();
    let filler = vec![3u8; 279];
    block.insert_to(&options(TransitOption::InsertBegin, &cur, &filler, true, TransportContext::File, 0));
    assert_eq!(block.buffer().len(), 279);
    assert_eq!(block.free_bytes(), 0);
    let data = b"xyz".to_vec();
    let r = block
        .insert_to(&options(TransitOption::InsertEnd, &cur, &data, true, TransportContext::File, 0))
        .unwrap();
    assert_eq!(r.state, TransitStates::MoveToEnd);
    assert_eq!(r.data, data);
    let r = block
        .insert_to(&options(TransitOption::InsertEnd, &cur, &data, false, TransportContext::File, 0))
        .unwrap();
    assert_eq!(r.state, TransitStates::Error1);
    assert_eq!(r.data, data);
}

#[test]
fn insert_in_pos_puts_bytes_at_the_entry() {
    let data: Vec<u8> = vec![0u8; 22];
    let mut block = loaded_block_with(&data);
    let mut cur = Cursor::new();
    cur.set_pos(1, 1);
    let ins = vec![9u8, 9];
    let r = block
        .insert_to(&options(TransitOption::InsertInPos, &cur, &ins, false, TransportContext::File, 0))
        .unwrap();
    assert_eq!(r.state, TransitStates::Success);
    let mut expected = vec![0u8; 11];
    expected.extend_from_slice(&[9, 9]);
    expected.extend_from_slice(&[0u8; 11]);
    assert_eq!(block.buffer(), &expected);
}

#[test]
fn insert_with_other_option_answers_none() {
    let mut block = loaded_block_with(b"abc");
    let cur = Cursor::new();
    let data = b"d".to_vec();
    let r = block.insert_to(&options(TransitOption::DeletePosDefault, &cur, &data, false, TransportContext::File, 0));
    assert!(r.is_none());
}

#[test]
fn directory_remove_clears_the_entry() {
    let mut block = loaded_block_with(&[4u8; 33]);
    let mut cur = Cursor::new();
    cur.set_pos(1, 1);
    let none = Vec::new();
    let r = block
        .remove_to(&options(TransitOption::Finalize, &cur, &none, true, TransportContext::Directory, 0))
        .unwrap();
    assert_eq!(r.state, TransitStates::Success);
    assert!(r.increment_size);
    let mut expected = vec![4u8; 11];
    expected.extend_from_slice(&[0u8; 11]);
    expected.extend_from_slice(&[4u8; 11]);
    assert_eq!(block.buffer(), &expected);
}

#[test]
fn remove_at_entry_zero_is_refused() {
    let mut block = loaded_block_with(&[4u8; 33]);
    let cur = Cursor::new();
    let none = Vec::new();
    for opt in [
        TransitOption::DeletePosBytesToBegin,
        TransitOption::DeletePosBytesToEnd,
        TransitOption::DeletePosDefault,
        TransitOption::DeletePosToIndicator,
    ] {
        let r = block.remove_to(&options(opt, &cur, &none, false, TransportContext::File, 3)).unwrap();
        assert_eq!(r.state, TransitStates::Error2);
        assert!(r.data.is_empty());
    }
    assert_eq!(block.buffer().len(), 33);
}

#[test]
fn remove_to_begin_and_to_end() {
    let data: Vec<u8> = (0..30).collect();
    let mut cur = Cursor::new();
    cur.set_pos(1, 1);
    let none = Vec::new();
    let mut block = loaded_block_with(&data);
    let r = block
        .remove_to(&options(TransitOption::DeletePosBytesToBegin, &cur, &none, false, TransportContext::File, 0))
        .unwrap();
    assert_eq!(r.state, TransitStates::MoveToBegin);
    assert_eq!(r.action, TransitOption::InsertEnd);
    assert_eq!(r.data, (0..11).collect::<Vec<u8>>());
    assert_eq!(block.buffer(), &(11..30).collect::<Vec<u8>>());
    assert_eq!(block.writed_bytes(), 19);
    assert_eq!(block.free_bytes(), 260);

    let mut block = loaded_block_with(&data);
    let r = block
        .remove_to(&options(TransitOption::DeletePosBytesToEnd, &cur, &none, false, TransportContext::File, 0))
        .unwrap();
    assert_eq!(r.data, (11..30).collect::<Vec<u8>>());
    assert_eq!(block.buffer(), &(0..11).collect::<Vec<u8>>());
}

#[test]
fn remove_default_and_indicator() {
    let data: Vec<u8> = (0..30).collect();
    let mut cur = Cursor::new();
    cur.set_pos(1, 1);
    let none = Vec::new();
    let mut block = loaded_block_with(&data);
    let r = block
        .remove_to(&options(TransitOption::DeletePosDefault, &cur, &none, false, TransportContext::File, 0))
        .unwrap();
    assert_eq!(r.data, (11..19).collect::<Vec<u8>>());
    assert_eq!(block.buffer().len(), 22);

    let mut block = loaded_block_with(&data);
    let r = block
        .remove_to(&options(TransitOption::DeletePosToIndicator, &cur, &none, false, TransportContext::File, 4))
        .unwrap();
    assert_eq!(r.data, vec![11, 12, 13, 14]);
    assert_eq!(block.buffer().len(), 26);

    let mut block = loaded_block_with(&data);
    let r = block
        .remove_to(&options(TransitOption::DeletePosToIndicator, &cur, &none, false, TransportContext::File, 40))
        .unwrap();
    assert_eq!(r.state, TransitStates::Error2);
}

#[test]
fn remove_with_insert_option_answers_none() {
    let mut block = loaded_block_with(b"abc");
    let cur = Cursor::new();
    let none = Vec::new();
    assert!(block.remove_to(&options(TransitOption::InsertBegin, &cur, &none, false, TransportContext::File, 0)).is_none());
}

#[test]
fn reinsert_undoes_delete() {
    let data: Vec<u8> = (0..30).collect();
    let mut cur = Cursor::new();
    cur.set_pos(1, 1);
    let none = Vec::new();
    let mut block = loaded_block_with(&data);
    let r = block
        .remove_to(&options(TransitOption::DeletePosToIndicator, &cur, &none, false, TransportContext::File, 5))
        .unwrap();
    block.insert_to(&options(TransitOption::InsertInPos, &cur, &r.data, false, TransportContext::File, 0));
    assert_eq!(block.buffer(), &data);
}

#[test]
fn clearing_zeroes_and_resets() {
    let mut block = loaded_block_with(b"abcdef");
    block.zero_buffer();
    assert_eq!(block.buffer(), &vec![0u8; 6]);
    block.reset_counts();
    assert_eq!(block.writed_bytes(), 0);
    assert_eq!(block.free_bytes(), 279);
}

#[test]
fn reinsert_at_begin_undoes_delete_to_begin() {
    let data: Vec<u8> = (0..30).collect();
    let mut cur = Cursor::new();
    cur.set_pos(1, 2);
    let none = Vec::new();
    let mut block = loaded_block_with(&data);
    let r = block
        .remove_to(&options(TransitOption::DeletePosBytesToBegin, &cur, &none, false, TransportContext::File, 0))
        .unwrap();
    assert_eq!(r.data, (0..22).collect::<Vec<u8>>());
    block.insert_to(&options(TransitOption::InsertBegin, &cur, &r.data, false, TransportContext::File, 0));
    assert_eq!(block.buffer(), &data);
}

#[test]
fn loading_reveals_what_flushing_hid() {
    let mut disk = MemDisk::new();
    let payload: Vec<u8> = (0..200).map(|i| (i * 7) as u8).collect();
    let mut block = BaseSheetShadowdBlock::new(5, 3, 1);
    load(&mut block, &disk);
    let mut data = payload.clone();
    block.write_block(&mut data);
    flush(&mut block, &mut disk);
    assert_ne!(&disk.bytes[283 * 5 + 4..283 * 5 + 204], &payload[..]);
    let mut again = BaseSheetShadowdBlock::new(5, 3, 1);
    load(&mut again, &disk);
    assert_eq!(again.buffer(), &payload);
    assert_eq!(again.writed_bytes(), 200);
    assert_eq!(again.free_bytes(), 79);
    assert!(!again.is_free());
}

#[test]
fn read_to_past_the_buffer_answers_none() {
    let block = loaded_block_with(&[5u8; 30]);
    let mut cur = Cursor::new();
    cur.set_pos(1, 3);
    let before = {
        let mut b = Vec::new();
        cur.serialize_into(&mut b);
        b
    };
    assert!(block.read_to(&mut cur, 10).is_none());
    let mut after = Vec::new();
    cur.serialize_into(&mut after);
    assert_eq!(after, before);
}

#[test]
fn directory_entry_past_the_buffer_answers_none() {
    let mut block = loaded_block_with(&[1u8; 22]);
    let mut cur = Cursor::new();
    cur.set_pos(1, 2);
    let entry = vec![9u8; 11];
    assert!(block
        .insert_to(&options(TransitOption::InsertInPos, &cur, &entry, true, TransportContext::Directory, 0))
        .is_none());
    assert!(block
        .remove_to(&options(TransitOption::Finalize, &cur, &entry, true, TransportContext::Directory, 0))
        .is_none());
    assert_eq!(block.buffer(), &vec![1u8; 22]);
}

#[test]
fn directory_remove_of_a_cut_entry_answers_none() {
    let mut block = loaded_block_with(&[1u8; 15]);
    let mut cur = Cursor::new();
    cur.set_pos(1, 1);
    let none = Vec::new();
    assert!(block
        .remove_to(&options(TransitOption::Finalize, &cur, &none, true, TransportContext::Directory, 0))
        .is_none());
    assert_eq!(block.buffer(), &vec![1u8; 15]);
}

#[test]
fn flush_stays_within_the_block() {
    let mut block = BaseSheetShadowdBlock::new(2, 0, 1);
    block.load_header(&vec![0, 0, 1, 44]);
    block.load_data(&vec![6u8; 300]);
    block.zero_buffer();
    match block.write_intern() {
        FlushStep::Write(header, data) => {
            assert_eq!(header.off, 283 * 2);
            assert_eq!(header.data, vec![0, 0, 1, 23]);
            assert_eq!(data.off, 283 * 2 + 4);
            assert_eq!(data.data.len(), 279);
        }
        _ => panic!("a loaded, changed block is written"),
    }
}

#[test]
fn ofusc_is_its_own_inverse() {
    let block = BaseSheetShadowdBlock::new(7, 1, 1);
    let data: Vec<u8> = (0..50).collect();
    let hidden = block.ofusc(&data);
    assert_eq!(hidden.len(), 50);
    assert_ne!(hidden, data);
    assert_eq!(block.ofusc(&hidden), data);
}
