use minidox::cache::store::NodeId;
use minidox::io::{IoError, EIO, ENOENT};
use minidox::ordered::OrdMap;
use minidox::redox::branch::{blocks_512, directory_entries};
use minidox::redox::disk::{block_accounting, CowDisk};
use minidox::redox::durable::{DiskAction, DurableCowDisk, ForkStage};
use minidox::redox::identity::{IdentityBranch, IdentitySource, RedoxPageIdentity};
use minidox::redox::records::{encode_record, load_records, Block, LayerError, LAYER_RECORD_SIZE};

fn read(disk: &CowDisk, block: u64, len: usize) -> Vec<u8> {
    let mut bytes = vec![0xff; len];
    assert_eq!(disk.read_at(block, &mut bytes).unwrap(), len);
    bytes
}

#[test]
fn unwritten_blocks_read_as_zeros() {
    let disk = CowDisk::new(3 * 4096);
    assert_eq!(disk.size(), 3 * 4096);
    assert!(!disk.has_writes());
    assert_eq!(read(&disk, 0, 2 * 4096), vec![0; 2 * 4096]);
}

#[test]
fn written_blocks_read_back() {
    let mut disk = CowDisk::new(3 * 4096);
    let mut next = 1;
    let records = disk.write_at(1, &[7; 5000], &mut next).unwrap();
    assert!(records.is_empty());
    assert_eq!(next, 3);
    let bytes = read(&disk, 0, 3 * 4096);
    assert_eq!(bytes[..4096], [0; 4096]);
    assert_eq!(bytes[4096..9096], [7; 5000]);
    assert_eq!(bytes[9096..], [0; 3192]);
    disk.write_at(2, b"short", &mut next).unwrap();
    assert_eq!(&read(&disk, 2, 8), b"short\x07\x07\x07");
}

#[test]
fn transfer_past_the_end_of_the_disk_is_refused() {
    let mut disk = CowDisk::new(2 * 4096);
    let mut next = 1;
    let mut bytes = [9; 4097];
    assert!(matches!(
        disk.read_at(1, &mut bytes),
        Err(IoError::Os(EIO))
    ));
    assert_eq!(bytes, [9; 4097]);
    assert!(matches!(
        disk.write_at(u64::MAX, &[0; 8], &mut next),
        Err(IoError::Os(EIO))
    ));
    assert_eq!(next, 1);
}

#[test]
fn forked_disks_share_blocks_until_a_write() {
    let mut source = CowDisk::new(8 * 4096);
    let mut next = 1;
    source.write_at(0, &[1; 3 * 4096], &mut next).unwrap();
    let mut child = source.fork(None);
    assert!(!source.has_writes());
    let both = block_accounting(&vec![&source, &child]);
    assert_eq!((both.resident_blocks, both.shared_blocks), (3, 3));
    child.write_at(1, &[2; 4096], &mut next).unwrap();
    let both = block_accounting(&vec![&source, &child]);
    assert_eq!((both.resident_blocks, both.shared_blocks), (4, 2));
    assert_eq!(read(&source, 1, 4096), vec![1; 4096]);
    assert_eq!(read(&child, 1, 4096), vec![2; 4096]);
}

#[test]
fn durable_disk_writes_records() {
    let mut disk = CowDisk::durable(4 * 4096, DurableCowDisk::create(5));
    let mut next = 77;
    let records = disk.write_at(2, &[3; 4096], &mut next).unwrap();
    assert_eq!(records.len(), 1);
    let mut expected: Vec<u8> = 2_u64.to_le_bytes().to_vec();
    expected.extend(77_u64.to_le_bytes());
    expected.extend([3; 4096]);
    assert_eq!(records[0], expected);
    assert_eq!(
        records[0],
        encode_record(2, &Block::new(77, vec![3; 4096]))
    );
    let (state, _) = disk.durable_state().unwrap();
    assert_eq!((state.size, state.overlay), (4 * 4096, 5));
    assert!(state.layers.is_empty());
    assert!(matches!(
        CowDisk::new(4096).durable_state(),
        Err(IoError::Other(why)) if why == "filesystem branch is not durable"
    ));
}

#[test]
fn durable_fork_seals_the_overlay() {
    let mut files = DurableCowDisk::create(5);
    let stage = ForkStage::start(true);
    assert_eq!(files.fork_action(stage), DiskAction::LinkOverlay(5));
    let stage = files.fork_advance(stage, 6);
    assert_eq!(files.fork_action(stage), DiskAction::CreateOverlay);
    let stage = files.fork_advance(stage, 7);
    assert_eq!(files.fork_action(stage), DiskAction::CreateChildOverlay);
    let stage = files.fork_advance(stage, 8);
    assert_eq!(stage, ForkStage::Done(8));
    assert_eq!(files.overlay(), 7);
    assert_eq!(files.fork_child(8).overlay(), 8);
    assert_eq!(ForkStage::start(false), ForkStage::Child);
}

#[test]
fn layer_records_read_back() {
    let mut layer = encode_record(4, &Block::new(10, vec![1; 4096]));
    layer.extend(encode_record(4, &Block::new(11, vec![2; 4096])));
    layer.extend(encode_record(9, &Block::new(10, vec![1; 4096])));
    assert_eq!(layer.len(), 3 * LAYER_RECORD_SIZE);
    let mut objects = OrdMap::new();
    let mut visible = OrdMap::new();
    let mut next = 1;
    load_records(&layer, &mut objects, &mut visible, &mut next).unwrap();
    assert_eq!(next, 12);
    assert_eq!(objects.len(), 2);
    assert_eq!(visible.get(&4).unwrap().id(), 11);
    assert_eq!(visible.get(&9).unwrap().id(), 10);
    assert_eq!(visible.get(&4).unwrap().bytes(), &[2; 4096][..]);
}

#[test]
fn damaged_layers_are_refused() {
    let mut objects = OrdMap::new();
    let mut visible = OrdMap::new();
    let mut next = 1;
    let layer = encode_record(4, &Block::new(10, vec![1; 4096]));
    let error = load_records(&layer[1..], &mut objects, &mut visible, &mut next).unwrap_err();
    assert!(matches!(error, LayerError::PartialRecord));
    assert_eq!(
        error.message("/x/layer-3"),
        "filesystem layer /x/layer-3 ends with a partial block record"
    );
    let mut layer = layer;
    layer.extend(encode_record(5, &Block::new(10, vec![2; 4096])));
    let error = load_records(&layer, &mut objects, &mut visible, &mut next).unwrap_err();
    assert!(matches!(error, LayerError::ConflictingContents(10)));
    assert_eq!(
        error.message("/x/layer-3"),
        "filesystem block object 10 has conflicting contents"
    );
}

#[test]
fn page_identities_change_with_writes() {
    let mut source = IdentitySource::new();
    let mut branch = IdentityBranch::new();
    branch.create_file(3, &mut source);
    let first = branch.page_identity(3, 100).unwrap();
    assert_eq!(first, branch.page_identity(3, 4095).unwrap());
    assert_ne!(first, branch.page_identity(3, 4096).unwrap());

    let mut child = branch.fork();
    assert_eq!(first, child.page_identity(3, 0).unwrap());
    child.record_write(3, 4000, 200, &mut source).unwrap();
    assert_ne!(first, child.page_identity(3, 0).unwrap());
    assert_eq!(first, branch.page_identity(3, 0).unwrap());
    let prepared: RedoxPageIdentity = branch.prepare_page_write(3, 0, &mut source).unwrap();
    assert_eq!(prepared, branch.page_identity(3, 0).unwrap());
    assert_ne!(prepared, first);
    assert_ne!(prepared, child.page_identity(3, 0).unwrap());

    assert!(branch.page_identity(9, 0).is_err());
    assert!(child
        .record_write(3, u64::MAX, 2, &mut source)
        .is_err());
    let restored = IdentityBranch::restore(&child.visible_files(), &child.visible_pages());
    assert_eq!(
        restored.page_identity(3, 4096).unwrap(),
        child.page_identity(3, 4096).unwrap()
    );
}

#[test]
fn directory_listing_needs_readable_names() {
    assert_eq!(blocks_512(3), 24);
    let found: Vec<(NodeId, Option<String>)> = vec![(4, Some("a".to_string())), (5, None)];
    assert!(matches!(directory_entries(found), Err(IoError::Os(EIO))));
    let entries = directory_entries(vec![(4, Some("a".to_string()))]).unwrap();
    assert_eq!(entries.len(), 1);
    assert_eq!((entries[0].id, entries[0].name.as_str()), (4, "a"));
    assert_ne!(ENOENT, EIO);
}

#[test]
fn identity_is_of_one_page_in_every_branch() {
    let mut source = IdentitySource::new();
    let mut first = IdentityBranch::new();
    first.create_file(7, &mut source);
    let mut second = first.fork();
    first.create_file(8, &mut source);
    second.create_file(9, &mut source);
    second.create_file(7, &mut source);

    assert_eq!(first.page_identity(7, 0).unwrap(), RedoxPageIdentity(1, 0, 0));
    assert_eq!(first.page_identity(8, 0).unwrap(), RedoxPageIdentity(2, 0, 0));
    assert_eq!(second.page_identity(9, 0).unwrap(), RedoxPageIdentity(3, 0, 0));
    assert_eq!(second.page_identity(7, 4096).unwrap(), RedoxPageIdentity(4, 1, 0));
    for node in [7, 8] {
        for other in [7, 9] {
            assert_ne!(
                first.page_identity(node, 0).unwrap(),
                second.page_identity(other, 0).unwrap()
            );
        }
    }
}
