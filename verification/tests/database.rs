use data::database::BlockAllocator;
use data::database::Database;
use data::database::DatabaseMeta;
use data::disk::Disk;
use data::disk::DiskError;
use data::disk::MemDisk;
use data::error::Error;
use data::page::btree::BTree;

fn cursor() -> impl Disk {
    MemDisk::new()
}

fn database() -> Database<impl Disk> {
    Database::initialize(cursor()).unwrap()
}

#[test]
fn create_new_database() {
    database();
}

#[test]
fn insert_and_retrieve() {
    let _db = database();
}

#[test]
fn database_create_new_database() {
    database();
}

#[test]
fn database_insert_and_retrieve() {
    let _db = database();
}

#[test]
fn header_of_a_new_database() {
    let db = Database::initialize(MemDisk::new()).unwrap();
    assert_eq!(db.block_size(), 8192);
    assert_eq!(
        db.meta,
        DatabaseMeta { block_size_exp: 13, num_blocks_allocated: 1, root_btree_offset: 0 }
    );
    assert_eq!(
        db.disk.bytes,
        vec![0, 0, 0, 0, 0, 0, 0, 13, 0, 0, 0, 0, 0, 0, 0, 1, 0, 0, 0, 0, 0, 0, 0, 0]
    );
    assert_eq!(db.end(), 8192);
}

#[test]
fn initialize_overwrites_what_the_device_holds() {
    let db = Database::initialize(MemDisk::from_bytes(vec![9u8; 30])).unwrap();
    assert_eq!(&db.disk.bytes[..24], &Database::initialize(MemDisk::new()).unwrap().disk.bytes[..]);
    assert_eq!(&db.disk.bytes[24..], &[9u8; 6]);
}

#[test]
fn allocate_block_counts_and_persists() {
    let mut db = Database::initialize(MemDisk::new()).unwrap();
    assert_eq!(db.allocate_block().unwrap(), 8192);
    assert_eq!(db.allocate_block().unwrap(), 2 * 8192);
    assert_eq!(db.meta.num_blocks_allocated, 3);
    assert_eq!(&db.disk.bytes[8..16], &[0, 0, 0, 0, 0, 0, 0, 3]);
    // the block's bytes are not written
    assert_eq!(db.disk.bytes.len(), 24);
    db.write(8192, &[1, 2, 3]).unwrap();
    assert_eq!(db.disk.bytes.len(), 8195);
    assert_eq!(&db.disk.bytes[8192..], &[1, 2, 3]);
    assert!(db.disk.bytes[24..8192].iter().all(|b| *b == 0));
    let reopened = Database::from_existing(MemDisk::from_bytes(db.disk.bytes.clone())).unwrap();
    assert_eq!(reopened.meta, db.meta);
}

#[test]
fn from_existing_reads_the_header() {
    let mut bytes = vec![0u8; 24];
    bytes[7] = 10;
    bytes[15] = 5;
    bytes[22] = 4;
    let db = Database::from_existing(MemDisk::from_bytes(bytes)).unwrap();
    assert_eq!(db.block_size(), 1024);
    assert_eq!(
        db.meta,
        DatabaseMeta { block_size_exp: 10, num_blocks_allocated: 5, root_btree_offset: 1024 }
    );
    assert_eq!(db.end(), 5 * 1024);
}

#[test]
fn from_existing_rejects_what_is_no_header() {
    assert_eq!(Database::from_existing(MemDisk::new()).err(), Some(Error::Format));
    assert_eq!(Database::from_existing(MemDisk::from_bytes(vec![0u8; 23])).err(), Some(Error::Format));
    // a block size exponent that is not supported
    let mut bytes = vec![0u8; 24];
    bytes[7] = 6;
    bytes[15] = 1;
    assert_eq!(Database::from_existing(MemDisk::from_bytes(bytes.clone())).err(), Some(Error::Format));
    bytes[7] = 32;
    assert_eq!(Database::from_existing(MemDisk::from_bytes(bytes.clone())).err(), Some(Error::Format));
    bytes[7] = 7;
    assert!(Database::from_existing(MemDisk::from_bytes(bytes.clone())).is_ok());
    bytes[7] = 31;
    assert!(Database::from_existing(MemDisk::from_bytes(bytes.clone())).is_ok());
    // no block allocated
    bytes[15] = 0;
    assert_eq!(Database::from_existing(MemDisk::from_bytes(bytes.clone())).err(), Some(Error::Format));
    // more blocks than the device may have
    bytes[7] = 13;
    bytes[8] = 0x40;
    assert_eq!(Database::from_existing(MemDisk::from_bytes(bytes)).err(), Some(Error::Format));
}

#[test]
fn a_full_device_is_a_capacity_error() {
    let mut bytes = vec![0u8; 24];
    bytes[7] = 31;
    // 2^31 blocks of 2^31 bytes end at the limit of 2^62 bytes
    bytes[12] = 0x80;
    let mut db = Database::from_existing(MemDisk::from_bytes(bytes.clone())).unwrap();
    assert_eq!(db.allocate_block(), Err(Error::Capacity));
    assert_eq!(db.disk.bytes, bytes);
    assert_eq!(BTree::init(&mut db).err(), Some(Error::Capacity));
}

#[test]
fn round_trip() {
    let mut db = Database::initialize(MemDisk::new()).unwrap();
    for k in 0..2000u128 {
        db.lookup().unwrap().set_value(k, &[(k % 256) as u8; 77], &mut db).unwrap();
    }
    let first = Database::initialize(MemDisk::new()).unwrap();
    let bytes = db.disk.into_bytes();
    let mut db = Database::from_existing(MemDisk::from_bytes(bytes)).unwrap();
    // the root has been split, and the header says where it is now
    assert_ne!(db.meta.root_btree_offset, first.meta.root_btree_offset);
    assert_ne!(db.meta.root_btree_offset, 8192);
    for k in 0..2000u128 {
        assert_eq!(db.lookup().unwrap().value(k, &mut db).unwrap(), Some(vec![(k % 256) as u8; 77]));
    }
    assert_eq!(db.lookup().unwrap().value(2000, &mut db).unwrap(), None);
}

#[test]
fn root_offset_persists() {
    let mut db = Database::initialize(MemDisk::new()).unwrap();
    db.lookup().unwrap();
    let initial = db.meta.root_btree_offset;
    assert_eq!(initial, 8192);
    assert_eq!(&db.disk.bytes[16..24], &[0, 0, 0, 0, 0, 0, 0x20, 0]);
    for k in 0..200u128 {
        db.lookup().unwrap().set_value(k, &[1u8; 100], &mut db).unwrap();
    }
    let mut db = Database::from_existing(MemDisk::from_bytes(db.disk.bytes.clone())).unwrap();
    assert_ne!(db.meta.root_btree_offset, initial);
    assert_eq!(db.lookup().unwrap().value(0, &mut db).unwrap(), Some(vec![1u8; 100]));
}

#[test]
fn mem_disk_reads_and_writes() {
    let mut disk = MemDisk::new();
    assert_eq!(disk.len(), 0);
    assert_eq!(disk.read_exact_at(0, 0), Ok(vec![]));
    assert_eq!(disk.read_exact_at(0, 1), Err(DiskError::OutOfBounds));
    disk.write_all_at(3, &[1, 2]).unwrap();
    assert_eq!(disk.bytes, vec![0, 0, 0, 1, 2]);
    disk.write_all_at(4, &[7, 8]).unwrap();
    assert_eq!(disk.bytes, vec![0, 0, 0, 1, 7, 8]);
    disk.write_all_at(0, &[9]).unwrap();
    assert_eq!(disk.read_exact_at(0, 6), Ok(vec![9, 0, 0, 1, 7, 8]));
    assert_eq!(disk.read_exact_at(4, 2), Ok(vec![7, 8]));
    assert_eq!(disk.read_exact_at(5, 2), Err(DiskError::OutOfBounds));
    assert_eq!(disk.read_exact_at(u64::MAX, 1), Err(DiskError::OutOfBounds));
    assert_eq!(disk.write_all_at(u64::MAX, &[1]), Err(DiskError::Failure));
    assert_eq!(disk.bytes, vec![9, 0, 0, 1, 7, 8]);
    assert_eq!(Error::from_disk(DiskError::OutOfBounds), Error::Format);
    assert_eq!(Error::from_disk(DiskError::Failure), Error::Io);
}

struct FailingDisk {
    inner: MemDisk,
    writes_left: usize,
}

impl Disk for FailingDisk {
    fn read_exact_at(&mut self, offset: u64, len: usize) -> Result<Vec<u8>, DiskError> {
        self.inner.read_exact_at(offset, len)
    }

    fn write_all_at(&mut self, offset: u64, data: &[u8]) -> Result<(), DiskError> {
        if self.writes_left == 0 {
            return Err(DiskError::Failure);
        }
        self.writes_left -= 1;
        self.inner.write_all_at(offset, data)
    }
}

#[test]
fn a_failing_device_is_an_io_error() {
    let disk = FailingDisk { inner: MemDisk::new(), writes_left: 0 };
    assert_eq!(Database::initialize(disk).err(), Some(Error::Io));
    let disk = FailingDisk { inner: MemDisk::new(), writes_left: 3 };
    let mut db = Database::initialize(disk).unwrap();
    let mut tree = BTree::init(&mut db).unwrap();
    assert_eq!(tree.insert(1, &[1], &mut db), Err(Error::Io));
}
