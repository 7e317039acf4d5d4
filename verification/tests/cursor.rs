use lmtht::error::Detail;
use lmtht::storage::{MemCursor, SeekFrom, Storage};
use lmtht::MemStorage;

#[test]
fn seek_from_the_start_the_end_and_here() {
    let mut buffer = vec![1u8, 2, 3, 4, 5];
    let mut cursor = MemCursor::new(false);
    assert_eq!(Ok(3), cursor.seek(&mut buffer, SeekFrom::Start(3)));
    assert_eq!(3, cursor.position);
    assert_eq!(Ok(5), cursor.seek(&mut buffer, SeekFrom::End(0)));
    assert_eq!(Ok(4), cursor.seek(&mut buffer, SeekFrom::End(-1)));
    assert_eq!(Ok(2), cursor.seek(&mut buffer, SeekFrom::Current(-2)));
    assert_eq!(Ok(9), cursor.seek(&mut buffer, SeekFrom::Current(7)));
    assert_eq!(vec![1u8, 2, 3, 4, 5], buffer);
}

#[test]
fn seek_to_before_the_start_fails() {
    let mut buffer = vec![1u8, 2, 3];
    let mut cursor = MemCursor { writable: true, position: 2 };
    assert_eq!(
        Err(Detail::DamagedStorage { at: 2 }),
        cursor.seek(&mut buffer, SeekFrom::End(-4))
    );
    assert_eq!(
        Err(Detail::DamagedStorage { at: 2 }),
        cursor.seek(&mut buffer, SeekFrom::Current(-3))
    );
    assert_eq!(
        Err(Detail::DamagedStorage { at: 2 }),
        cursor.seek(&mut buffer, SeekFrom::Current(i64::MIN))
    );
    assert_eq!(2, cursor.position);
    assert_eq!(vec![1u8, 2, 3], buffer);
}

#[test]
fn seek_beyond_the_end_fills_with_zeros_for_a_writer() {
    let mut buffer = vec![1u8, 2];
    let mut cursor = MemCursor::new(true);
    assert_eq!(Ok(5), cursor.seek(&mut buffer, SeekFrom::End(3)));
    assert_eq!(vec![1u8, 2, 0, 0, 0], buffer);
    let mut reader = MemCursor::new(false);
    assert_eq!(Ok(7), reader.seek(&mut buffer, SeekFrom::End(2)));
    assert_eq!(5, buffer.len());
}

#[test]
fn read_gives_what_is_there() {
    let buffer = vec![1u8, 2, 3, 4, 5];
    let mut cursor = MemCursor { writable: false, position: 1 };
    assert_eq!(vec![2u8, 3], cursor.read(&buffer, 2));
    assert_eq!(3, cursor.position);
    assert_eq!(vec![4u8, 5], cursor.read(&buffer, 10));
    assert_eq!(5, cursor.position);
    assert!(cursor.read(&buffer, 1).is_empty());
    let mut beyond = MemCursor { writable: false, position: 9 };
    assert!(beyond.read(&buffer, 1).is_empty());
    assert_eq!(9, beyond.position);
}

#[test]
fn write_appends_and_needs_permission() {
    let mut buffer = vec![1u8];
    let mut reader = MemCursor::new(false);
    assert_eq!(Err(Detail::PermissionDenied), reader.write(&mut buffer, &[2, 3]));
    assert_eq!(vec![1u8], buffer);
    let mut writer = MemCursor::new(true);
    assert_eq!(Ok(2), writer.write(&mut buffer, &[2, 3]));
    assert_eq!(vec![1u8, 2, 3], buffer);
    assert_eq!(2, writer.position);
    assert_eq!(Ok(3), writer.seek(&mut buffer, SeekFrom::End(0)));
    assert_eq!(Ok(1), writer.write(&mut buffer, &[4]));
    assert_eq!(vec![1u8, 2, 3, 4], buffer);
    assert_eq!(4, writer.position);
}

#[test]
fn write_moves_the_cursor_on_by_what_was_written() {
    let mut buffer = vec![1u8, 2, 3];
    let mut cursor = MemCursor { writable: true, position: 1 };
    assert_eq!(Ok(2), cursor.write(&mut buffer, &[8, 9]));
    assert_eq!(vec![1u8, 2, 3, 8, 9], buffer);
    assert_eq!(3, cursor.position);
    let mut beyond = MemCursor { writable: true, position: 10 };
    assert_eq!(Ok(1), beyond.write(&mut buffer, &[7]));
    assert_eq!(11, beyond.position);
    assert_eq!(6, buffer.len());
}

#[test]
fn write_fails_where_the_cursor_cannot_move_on() {
    let mut buffer = vec![1u8];
    let mut cursor = MemCursor { writable: true, position: usize::MAX };
    assert_eq!(
        Err(Detail::DamagedStorage { at: usize::MAX as u64 }),
        cursor.write(&mut buffer, &[2])
    );
    assert_eq!(vec![1u8], buffer);
    assert_eq!(usize::MAX, cursor.position);
    assert_eq!(Ok(0), cursor.write(&mut buffer, &[]));
}

#[test]
fn a_storage_in_memory_reads_and_grows() {
    let mut storage = MemStorage::new();
    assert_eq!(Ok(0), storage.length());
    assert_eq!(Ok(()), storage.write(&[1, 2, 3]));
    assert_eq!(Ok(()), storage.write(&[4]));
    assert_eq!(Ok(4), storage.length());
    assert_eq!(Ok(vec![2u8, 3]), storage.read(1, 2));
    assert_eq!(Ok(vec![]), storage.read(4, 0));
    assert_eq!(Err(Detail::DamagedStorage { at: 3 }), storage.read(3, 2));
    assert_eq!(Err(Detail::DamagedStorage { at: 5 }), storage.read(5, 0));
    assert_eq!(vec![1u8, 2, 3, 4], *storage.buffer());
    assert_eq!(vec![9u8], *MemStorage::with(vec![9]).buffer());
}
